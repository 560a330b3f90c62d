//! The copy-on-write B-tree.
//!
//! Every operation that changes a node writes the change to a page owned by
//! the current write batch. Nodes on committed pages are never touched, so
//! every committed root keeps describing a complete, frozen tree until it
//! falls out of retention.
//!
//! Within a batch, nodes the batch already owns are rewritten in place, so
//! a batch grows with its working set and not with its operation count.
//!
//! Deletes merge underfull nodes with a neighbor when the pair fits into
//! one page. There is no key borrowing between siblings: a lone underfull
//! node between two full neighbors stays as it is, which keeps the logic
//! small and bounds waste well enough in practice. Emptied nodes are
//! unlinked and single-child branches collapse into their child.

use vstd::prelude::*;

use crate::bytes::{
    copy_vec, get_u16, get_u64, le_bytes, lemma_field16, lemma_field64, lemma_splice_reads,
    put_all, set_all, set_le, sub_vec, zero_vec, zeros,
};
use crate::error::{Error, Result};
use crate::node::{
    branch_keys, branch_view, leaf_keys, leaf_view, node_len, node_of, sorted, LeafCell, Node,
    NodeV, VRef, ValueRef,
};
use crate::order::{lemma_lex_irrefl, lemma_lex_trans, lex_le, lex_lt, order_bytes, Order};
use crate::page::{has_type, page_size_ok, PageId, PageType, NIL_PAGE, PAGE_HEADER_LEN};
use crate::pager::{ReadPages, WriteBatch};
use crate::storage::Storage;
use crate::tree::{
    chunk_len, entries_find, entry_cells, entry_keys, inline_limit, joined, kid_cells, kid_hi,
    kid_lo, lemma_chain_len, lemma_entries_find, lemma_find_key_len, lemma_has_page,
    lemma_joined_take, lemma_kid_nodes, lemma_nodes_bound, lemma_route, lemma_route_is,
    lemma_tree_of, lemma_tree_unique, link, max_key, ofind, ohas, part_of, route, sound_root,
    tree_at, tree_of, Entry, Pages, Stored, Tree,
};

verus! {

/// Longest allowed key. Keeps branch fanout healthy on every legal page
/// size; values have no limit thanks to overflow chains.
pub fn max_key_len(page_size: u32) -> (r: usize)
    ensures
        r == max_key(page_size),
{
    (page_size / 8) as usize
}

/// Values above this go to an overflow chain instead of living inline.
fn inline_max(page_size: u32) -> (r: usize)
    ensures
        r == inline_limit(page_size),
{
    (page_size / 4) as usize
}

pub(crate) fn overflow_capacity(page_size: u32) -> (r: usize)
    requires
        page_size_ok(page_size),
    ensures
        r == chunk_len(page_size),
        486 <= r <= 65510,
{
    (page_size - 26) as usize
}

// ---------------------------------------------------------------------
// Reads
// ---------------------------------------------------------------------

/// Whether an answer is the one the tree gives.
pub open spec fn answers(v: Option<Vec<u8>>, o: Option<Seq<u8>>) -> bool {
    match (v, o) {
        (Some(b), Some(s)) => b@ == s,
        (None, None) => true,
        _ => false,
    }
}

/// The tree at a root, where there is one.
pub open spec fn some_tree(pages: Pages, ps: u32, root: PageId) -> Option<Tree> {
    if exists|t: Tree| #[trigger] tree_at(pages, ps, root, t) {
        Some(choose|t: Tree| #[trigger] tree_at(pages, ps, root, t))
    } else {
        None
    }
}

pub proof fn lemma_some_tree(pages: Pages, ps: u32, root: PageId, t: Tree)
    requires
        tree_at(pages, ps, root, t),
    ensures
        some_tree(pages, ps, root) == Some(t),
{
    let u = choose|u: Tree| #[trigger] tree_at(pages, ps, root, u);
    lemma_tree_unique(t, u, pages, ps, None, None, None, None);
}

/// Where `key` is in a leaf, or where it would go.
pub(crate) fn leaf_position(entries: &Vec<(Vec<u8>, ValueRef)>, key: &[u8]) -> (r: (bool, usize))
    requires
        sorted(leaf_keys(leaf_view(entries@))),
    ensures
        r.1 <= entries@.len(),
        r.0 ==> r.1 < entries@.len() && entries@[r.1 as int].0@ == key@,
        forall|j: int| 0 <= j < r.1 ==> lex_lt((#[trigger] entries@[j]).0@, key@),
        forall|j: int|
            r.1 <= j < entries@.len() && !(r.0 && j == r.1) ==> lex_lt(
                key@,
                (#[trigger] entries@[j]).0@,
            ),
{
    let ghost ks = leaf_keys(leaf_view(entries@));
    let mut i: usize = 0;
    while i < entries.len()
        invariant
            i <= entries@.len(),
            ks == leaf_keys(leaf_view(entries@)),
            sorted(ks),
            forall|j: int| 0 <= j < i ==> lex_lt((#[trigger] entries@[j]).0@, key@),
        decreases entries@.len() - i,
    {
        match order_bytes(entries[i].0.as_slice(), key) {
            Order::Less => {
                i = i + 1;
            },
            Order::Equal => {
                proof {
                    assert forall|j: int| i < j < entries@.len() implies lex_lt(
                        key@,
                        (#[trigger] entries@[j]).0@,
                    ) by {
                        assert(lex_lt(ks[i as int], ks[j]));
                    }
                }
                return (true, i);
            },
            Order::Greater => {
                proof {
                    crate::tree::lemma_lex_facts2(entries@[i as int].0@, key@);
                    assert(lex_lt(key@, entries@[i as int].0@));
                    assert forall|j: int| i <= j < entries@.len() implies lex_lt(
                        key@,
                        (#[trigger] entries@[j]).0@,
                    ) by {
                        if j > i {
                            assert(lex_lt(ks[i as int], ks[j]));
                            lemma_lex_trans(key@, ks[i as int], ks[j]);
                        }
                    }
                }
                return (false, i);
            },
        }
    }
    (false, i)
}

/// How many separators are at or below `key`.
pub(crate) fn branch_position(entries: &Vec<(Vec<u8>, PageId)>, key: &[u8]) -> (r: usize)
    requires
        sorted(branch_keys(branch_view(entries@))),
    ensures
        r <= entries@.len(),
        r == route(branch_keys(branch_view(entries@)), key@),
{
    let ghost ks = branch_keys(branch_view(entries@));
    let mut i: usize = 0;
    while i < entries.len()
        invariant
            i <= entries@.len(),
            ks == branch_keys(branch_view(entries@)),
            sorted(ks),
            i > 0 ==> lex_le(ks[i - 1], key@),
        decreases entries@.len() - i,
    {
        match order_bytes(entries[i].0.as_slice(), key) {
            Order::Greater => {
                proof {
                    crate::tree::lemma_lex_facts2(entries@[i as int].0@, key@);
                    assert(ks[i as int] == entries@[i as int].0@);
                    lemma_route_is(ks, key@, i as int);
                }
                return i;
            },
            _ => {
                i = i + 1;
            },
        }
    }
    proof {
        lemma_route_is(ks, key@, i as int);
    }
    i
}

/// The child at conceptual index `idx`: 0 is the first child.
pub(crate) fn child_at(first_child: PageId, entries: &Vec<(Vec<u8>, PageId)>, idx: usize) -> (r: PageId)
    requires
        idx <= entries@.len(),
    ensures
        r == (if idx == 0 {
            first_child
        } else {
            entries@[idx - 1].1
        }),
{
    if idx == 0 {
        first_child
    } else {
        entries[idx - 1].1
    }
}

pub(crate) fn endless(page: PageId) -> (e: Error)
    ensures
        e is Corrupted,
        e->page == Some(page),
{
    Error::corrupted(Some(page), "tree visits more pages than the file has")
}

/// The node of a branch, told by its separators and children.
pub proof fn lemma_branch_node(seps: Seq<Seq<u8>>, kids: Seq<Tree>)
    ensures
        branch_keys(kid_cells(seps, kids)) == seps,
{
    assert(branch_keys(kid_cells(seps, kids)) =~= seps);
}

/// The pages of a sound tree are below any bound on readable pages.
pub proof fn lemma_tree_nodes(t: Tree, pages: Pages, ps: u32, bound: u64)
    requires
        t.holds(pages, ps),
        t.ok(ps, None, None),
        forall|id: PageId| #[trigger] pages.contains_key(id) ==> id < bound,
    ensures
        t.nodes() <= bound,
{
    assert forall|x: PageId| #[trigger] t.has(x) implies x < bound by {
        lemma_has_page(t, pages, ps, x);
    }
    lemma_nodes_bound(t, ps, bound as nat, None, None);
}

/// The value for `key` under `root`.
pub fn get<P: ReadPages>(src: &P, root: PageId, key: &[u8]) -> (r: Result<Option<Vec<u8>>>)
    requires
        src.wf(),
    ensures
        root == NIL_PAGE ==> r == Result::<Option<Vec<u8>>>::Ok(None),
        forall|t: Tree| #[trigger]
            tree_at(src.pages(), src.size(), root, t) ==> match r {
                Ok(v) => answers(v, t.find(key@)),
                Err(_) => !src.reliable(),
            },
{
    let ps: u32 = src.page_size();
    let ghost pages = src.pages();
    let ghost ot = some_tree(pages, ps, root);
    proof {
        assert forall|t: Tree| #[trigger] tree_at(pages, ps, root, t) implies ot == Some(t) by {
            lemma_some_tree(pages, ps, root, t);
        }
        if let Some(t) = ot {
            assert(tree_at(pages, ps, root, t));
            if key@.len() > max_key(ps) && t.find(key@) is Some {
                lemma_find_key_len(t, ps, None, None, key@);
            }
        }
    }
    if root == NIL_PAGE || key.len() > max_key_len(ps) {
        return Ok(None);
    }
    let mut page: PageId = root;
    let mut fuel: u64 = src.page_bound();
    let ghost mut cur: Option<Tree> = ot;
    let ghost mut lo: Option<Seq<u8>> = None;
    let ghost mut hi: Option<Seq<u8>> = None;
    proof {
        if let Some(t) = ot {
            lemma_tree_nodes(t, pages, ps, fuel);
        }
    }
    while fuel > 0
        invariant
            root != NIL_PAGE,
            src.wf(),
            pages == src.pages(),
            ps == src.size(),
            page_size_ok(ps),
            forall|t: Tree| #[trigger] tree_at(pages, ps, root, t) ==> ot == Some(t),
            ot matches Some(t) ==> cur matches Some(c) && {
                &&& c.root() == page
                &&& c.holds(pages, ps)
                &&& c.ok(ps, lo, hi)
                &&& c.find(key@) == t.find(key@)
                &&& c.nodes() <= fuel
            },
        decreases fuel,
    {
        let buf = match src.read(page) {
            Ok(b) => b,
            Err(e) => {
                return Err(e);
            },
        };
        let node = match Node::decode(buf.as_slice(), page) {
            Ok(n) => n,
            Err(e) => {
                return Err(e);
            },
        };
        match node {
            Node::Branch { first_child, entries } => {
                proof {
                    assert(node_of(buf@) == Some(NodeV::Branch(first_child, branch_view(entries@))));
                }
                let idx: usize = branch_position(&entries, key);
                page = child_at(first_child, &entries, idx);
                proof {
                    if ot is Some {
                        let c = cur->0;
                        match c {
                            Tree::Leaf(id, e) => {},
                            Tree::Branch(id, seps, kids) => {
                                lemma_branch_node(seps, kids);
                                assert(branch_view(entries@) == kid_cells(seps, kids));
                                lemma_route(seps, key@);
                                if idx > 0 {
                                    assert(kid_cells(seps, kids)[idx - 1].1 == kids[idx as int].root());
                                    assert(branch_view(entries@)[idx - 1].1 == entries@[idx - 1].1);
                                }
                                assert(kids[idx as int].ok(
                                    ps,
                                    kid_lo(seps, lo, idx as int),
                                    kid_hi(seps, hi, idx as int),
                                ));
                                lemma_kid_nodes(kids, idx as int);
                                cur = Some(kids[idx as int]);
                                lo = kid_lo(seps, lo, idx as int);
                                hi = kid_hi(seps, hi, idx as int);
                            },
                        }
                    }
                }
            },
            Node::Leaf { entries } => {
                proof {
                    assert(node_of(buf@) == Some(NodeV::Leaf(leaf_view(entries@))));
                }
                let (found, i) = leaf_position(&entries, key);
                if !found {
                    proof {
                        if ot is Some {
                            match cur->0 {
                                Tree::Leaf(id, e) => {
                                    lemma_leaf_absent(entries@, e, key@, i as int);
                                },
                                Tree::Branch(id, seps, kids) => {},
                            }
                        }
                    }
                    return Ok(None);
                }
                proof {
                    if ot is Some {
                        match cur->0 {
                            Tree::Leaf(id, e) => {
                                assert(leaf_view(entries@) == entry_cells(e));
                                assert(leaf_view(entries@)[i as int] == entry_cells(e)[i as int]);
                                lemma_entries_find(e, key@, i as int);
                                assert(e[i as int].1.holds(pages, ps));
                            },
                            Tree::Branch(id, seps, kids) => {},
                        }
                    }
                }
                return match read_value(src, &entries[i].1) {
                    Ok(v) => Ok(Some(v)),
                    Err(e) => Err(e),
                };
            },
        }
        fuel = fuel - 1;
    }
    Err(endless(page))
}

proof fn lemma_leaf_absent(v: Seq<(Vec<u8>, ValueRef)>, e: Seq<Entry>, k: Seq<u8>, at: int)
    requires
        leaf_view(v) == entry_cells(e),
        0 <= at <= v.len(),
        forall|j: int| 0 <= j < at ==> lex_lt((#[trigger] v[j]).0@, k),
        forall|j: int| at <= j < v.len() ==> lex_lt(k, (#[trigger] v[j]).0@),
    ensures
        entries_find(e, k) is None,
{
    assert(leaf_view(v).len() == v.len() && entry_cells(e).len() == e.len());
    assert forall|i: int| 0 <= i < e.len() implies (#[trigger] e[i]).0 != k by {
        assert(leaf_view(v)[i] == entry_cells(e)[i]);
        assert(v[i].0@ == e[i].0);
        lemma_lex_irrefl(k);
    }
}

/// Where following a chain of overflow pages leads.
pub enum Walk {
    /// To its end, with the bytes on the way.
    Ends(Seq<u8>),
    /// To a page that cannot be read.
    Lost,
    /// To a page that is no part of a chain, or past the most pages allowed.
    Astray,
}

/// Bytes in front of what a walk gathers.
pub open spec fn after_bytes(b: Seq<u8>, w: Walk) -> Walk {
    match w {
        Walk::Ends(x) => Walk::Ends(b + x),
        _ => w,
    }
}

/// Follow a chain for at most `fuel` pages.
pub open spec fn walked(pages: Pages, at: PageId, fuel: nat) -> Walk
    decreases fuel,
{
    if at == NIL_PAGE {
        Walk::Ends(Seq::empty())
    } else if fuel == 0 {
        Walk::Astray
    } else if !pages.contains_key(at) {
        Walk::Lost
    } else {
        match part_of(pages[at]) {
            Some((next, b)) => after_bytes(b, walked(pages, next, (fuel - 1) as nat)),
            None => Walk::Astray,
        }
    }
}

/// The most pages a chain for `len` bytes may have.
pub open spec fn longest_chain(len: u64, ps: u32) -> nat {
    if len == 0 {
        1
    } else {
        ((len + chunk_len(ps) - 1) / chunk_len(ps) as int) as nat
    }
}

/// The value a leaf cell stands for.
pub fn read_value<P: ReadPages>(src: &P, value: &ValueRef) -> (r: Result<Vec<u8>>)
    requires
        src.wf(),
    ensures
        forall|s: Stored|
            s.vref() == value@ && s.ok(src.size()) && #[trigger] s.holds(src.pages(), src.size())
                ==> match r {
                Ok(v) => v@ == s.bytes(),
                Err(_) => !src.reliable(),
            },
        value matches ValueRef::Inline(b) ==> (r matches Ok(v) && v@ == b@),
        value matches ValueRef::Overflow { head, len } ==> {
            let w = walked(src.pages(), *head, longest_chain(*len, src.size()));
            match r {
                Ok(v) => w == Walk::Ends(v@) && v@.len() == len,
                Err(e) => !src.reliable() || e is Corrupted || w is Lost,
            }
        },
{
    match value {
        ValueRef::Inline(v) => Ok(copy_vec(v.as_slice())),
        ValueRef::Overflow { head, len } => {
            let r = read_chain(src, *head, *len);
            proof {
                assert forall|s: Stored|
                    s.vref() == value@ && s.ok(src.size()) && #[trigger] s.holds(
                        src.pages(),
                        src.size(),
                    ) implies match r {
                    Ok(v) => v@ == s.bytes(),
                    Err(_) => !src.reliable(),
                } by {
                    match s {
                        Stored::Inline(v) => {},
                        Stored::Chain(p) => {
                            assert(chain_is(p, src.pages(), src.size(), *head, *len));
                        },
                    }
                }
            }
            r
        },
    }
}

/// Whether the pages spell the chain `p` from `head` on, `len` bytes in all.
pub open spec fn chain_is(
    p: Seq<(PageId, Seq<u8>)>,
    pages: Pages,
    ps: u32,
    head: PageId,
    len: u64,
) -> bool {
    &&& Stored::Chain(p).ok(ps)
    &&& Stored::Chain(p).holds(pages, ps)
    &&& p[0].0 == head
    &&& joined(p).len() == len
}

/// The most pages a chain for `len` bytes may have.
pub(crate) fn max_chain(len: u64, chunk: u64) -> (r: u64)
    requires
        chunk >= 1,
    ensures
        r == (if len == 0 {
            1
        } else {
            (len + chunk - 1) / chunk as int
        }),
{
    if len == 0 {
        1
    } else {
        let r: u64 = (len - 1) / chunk + 1;
        proof {
            assert((len - 1) / (chunk as int) + 1 == (len + chunk - 1) / (chunk as int)) by (nonlinear_arith)
                requires
                    chunk >= 1,
                    len >= 1,
            ;
        }
        r
    }
}

fn read_chain<P: ReadPages>(src: &P, head: PageId, len: u64) -> (r: Result<Vec<u8>>)
    requires
        src.wf(),
    ensures
        forall|p: Seq<(PageId, Seq<u8>)>| #[trigger]
            chain_is(p, src.pages(), src.size(), head, len) ==> match r {
                Ok(v) => v@ == joined(p),
                Err(_) => !src.reliable(),
            },
        ({
            let w = walked(src.pages(), head, longest_chain(len, src.size()));
            match r {
                Ok(v) => w == Walk::Ends(v@) && v@.len() == len,
                Err(e) => !src.reliable() || e is Corrupted || w is Lost,
            }
        }),
{
    let ps: u32 = src.page_size();
    let chunk: usize = overflow_capacity(ps);
    let ghost pages = src.pages();
    let ghost known = exists|p: Seq<(PageId, Seq<u8>)>| #[trigger]
        chain_is(p, pages, ps, head, len);
    let ghost p = choose|p: Seq<(PageId, Seq<u8>)>| #[trigger] chain_is(p, pages, ps, head, len);
    let mut out: Vec<u8> = Vec::new();
    let mut page: PageId = head;
    // a hard bound on the chain length guards against pointer loops in a
    // corrupted file
    let most: u64 = max_chain(len, chunk as u64);
    let bound: u64 = src.page_bound();
    let limit: u64 = if bound < most {
        bound
    } else {
        most
    };
    let mut i: u64 = 0;
    let ghost w = walked(pages, head, most as nat);
    proof {
        assert(most == longest_chain(len, ps));
        assert(after_bytes(out@, w) == w) by {
            if let Walk::Ends(x) = w {
                assert(out@ + x =~= x);
            }
        }
        assert forall|q: Seq<(PageId, Seq<u8>)>| #[trigger]
            chain_is(q, pages, ps, head, len) implies q == p by {
            assert(known);
            crate::tree::lemma_stored_unique(Stored::Chain(p), Stored::Chain(q), pages, ps);
        }
        if known {
            assert forall|j: int| 0 <= j < p.len() implies (#[trigger] p[j]).0 < bound by {
                assert(pages.contains_key(p[j].0));
            }
            lemma_chain_len(p, bound as nat);
            assert(p.take(0) =~= Seq::empty());
        }
    }
    while i < limit && page != NIL_PAGE
        invariant
            src.wf(),
            pages == src.pages(),
            ps == src.size(),
            page_size_ok(ps),
            chunk == chunk_len(ps),
            i <= limit <= most,
            most == longest_chain(len, ps),
            w == walked(pages, head, most as nat),
            w == after_bytes(out@, walked(pages, page, (most - i) as nat)),
            known == exists|p: Seq<(PageId, Seq<u8>)>| #[trigger] chain_is(p, pages, ps, head, len),
            forall|q: Seq<(PageId, Seq<u8>)>| #[trigger] chain_is(q, pages, ps, head, len) ==> q == p,
            known ==> {
                &&& chain_is(p, pages, ps, head, len)
                &&& p.len() <= limit
                &&& i <= p.len()
                &&& out@ == joined(p.take(i as int))
                &&& page == (if i < p.len() {
                    p[i as int].0
                } else {
                    NIL_PAGE
                })
            },
        decreases limit - i,
    {
        let buf = match src.read(page) {
            Ok(b) => b,
            Err(e) => {
                proof {
                    if known {
                        assert(pages.contains_key(p[i as int].0));
                    }
                }
                return Err(e);
            },
        };
        proof {
            if known {
                assert(i < p.len());
                assert(part_of(pages[p[i as int].0]) == Some((link(p, i as int), p[i as int].1)));
                lemma_joined_take(p, i as int);
            }
        }
        if !has_type(buf.as_slice(), PageType::Overflow) {
            return Err(Error::corrupted(Some(page), "overflow chain hit a non-overflow page"));
        }
        let next: PageId = get_u64(buf.as_slice(), PAGE_HEADER_LEN);
        let used: usize = get_u16(buf.as_slice(), PAGE_HEADER_LEN + 8) as usize;
        if used > chunk {
            return Err(Error::corrupted(Some(page), "overflow page claims impossible length"));
        }
        let part = sub_vec(
            buf.as_slice(),
            PAGE_HEADER_LEN + 10,
            PAGE_HEADER_LEN + 10 + used,
        );
        let ghost had = out@;
        put_all(&mut out, part.as_slice());
        proof {
            assert(part_of(pages[page]) == Some((next, part@)));
            let rest = walked(pages, next, (most - i - 1) as nat);
            assert(after_bytes(had, after_bytes(part@, rest)) == after_bytes(out@, rest)) by {
                if let Walk::Ends(x) = rest {
                    assert(had + (part@ + x) =~= out@ + x);
                }
            }
        }
        page = next;
        i = i + 1;
    }
    proof {
        if known {
            assert(i == p.len());
            assert(p.take(p.len() as int) =~= p);
        }
    }
    if out.len() as u64 != len || page != NIL_PAGE {
        return Err(Error::corrupted(Some(head), "overflow chain length mismatch"));
    }
    proof {
        assert(out@ + Seq::<u8>::empty() =~= out@);
    }
    Ok(out)
}

// ---------------------------------------------------------------------
// What a batch does to pages
// ---------------------------------------------------------------------

/// Whether `b` got the page since `a`.
pub open spec fn fresh<'p, S: Storage>(a: WriteBatch<'p, S>, b: WriteBatch<'p, S>, x: PageId) -> bool {
    b.own(x) && !a.own(x)
}

/// `b` is `a` some allocations and writes later.
pub open spec fn extends<'p, S: Storage>(a: WriteBatch<'p, S>, b: WriteBatch<'p, S>) -> bool {
    &&& b.wf()
    &&& b.keeps(&a)
    &&& b.next() >= a.next()
    &&& forall|x: PageId| #[trigger] a.own(x) ==> b.own(x)
    &&& a.free_ok() ==> {
        &&& b.free_ok()
        &&& forall|x: PageId| #[trigger] b.spare(x) ==> a.spare(x)
        &&& forall|x: PageId| #[trigger] fresh(a, b, x) ==> a.spare(x) && !b.spare(x)
    }
}

pub proof fn lemma_extends_self<'p, S: Storage>(a: WriteBatch<'p, S>)
    requires
        a.wf(),
    ensures
        extends(a, a),
{
}

pub proof fn lemma_extends_trans<'p, S: Storage>(
    a: WriteBatch<'p, S>,
    b: WriteBatch<'p, S>,
    c: WriteBatch<'p, S>,
)
    requires
        extends(a, b),
        extends(b, c),
    ensures
        extends(a, c),
        forall|x: PageId| #[trigger] fresh(a, c, x) == (fresh(a, b, x) || fresh(b, c, x)),
{
    assert forall|x: PageId| #[trigger] a.own(x) implies c.own(x) by {
        assert(b.own(x));
    }
    assert forall|x: PageId| #[trigger] fresh(a, c, x) == (fresh(a, b, x) || fresh(b, c, x)) by {
        if fresh(a, b, x) {
            assert(b.own(x));
            assert(c.own(x));
        }
        if fresh(b, c, x) && a.own(x) {
            assert(b.own(x));
        }
    }
    if a.free_ok() {
        assert forall|x: PageId| #[trigger] c.spare(x) implies a.spare(x) by {
            assert(b.spare(x));
        }
        assert forall|x: PageId| #[trigger] fresh(a, c, x) implies a.spare(x) && !c.spare(x) by {
            if fresh(a, b, x) {
                if c.spare(x) {
                    assert(b.spare(x));
                }
            } else {
                assert(fresh(b, c, x));
                assert(b.spare(x));
            }
        }
    }
}

/// Apart from page `page`, if owned, and new pages, everything reads as
/// before.
pub open spec fn only_page<'p, S: Storage>(
    a: WriteBatch<'p, S>,
    b: WriteBatch<'p, S>,
    page: PageId,
) -> bool {
    forall|x: PageId| #[trigger]
        a.pages().contains_key(x) && !(x == page && a.own(x)) && !fresh(a, b, x)
            ==> b.pages().contains_key(x) && b.pages()[x] == a.pages()[x]
}

/// Apart from owned pages of `t` and new pages, everything reads as before.
pub open spec fn only_tree<'p, S: Storage>(
    a: WriteBatch<'p, S>,
    b: WriteBatch<'p, S>,
    t: Tree,
) -> bool {
    forall|x: PageId| #[trigger]
        a.pages().contains_key(x) && !(t.has(x) && a.own(x)) && !fresh(a, b, x)
            ==> b.pages().contains_key(x) && b.pages()[x] == a.pages()[x]
}

/// Nothing in the tree is spare.
pub open spec fn unspared<'p, S: Storage>(b: WriteBatch<'p, S>, t: Tree) -> bool {
    forall|x: PageId| #[trigger] t.has(x) ==> !b.spare(x)
}

pub open spec fn value_unspared<'p, S: Storage>(b: WriteBatch<'p, S>, s: Stored) -> bool {
    forall|x: PageId| #[trigger] s.has(x) ==> !b.spare(x)
}

/// A node built from a decoded page and one more cell is never larger than
/// this.
pub const NODE_BOUND: usize = 0x10_0000;

/// Serialize a node, reusing `old_page` when this batch already owns it.
fn write_node<'p, S: Storage>(
    batch: &mut WriteBatch<'p, S>,
    old_page: Option<PageId>,
    node: &Node,
) -> (r: Result<PageId>)
    requires
        old(batch).wf(),
        node_len(node@) <= NODE_BOUND,
    ensures
        final(batch).next() <= old(batch).next() + 1,
        extends(*old(batch), *final(batch)),
        *final(final(batch).pager) == *final(old(batch).pager),
        match r {
            Ok(id) => {
                &&& id >= 2
                &&& node_len(node@) <= old(batch).size()
                &&& if old_page matches Some(p) && old(batch).own(p) {
                    id == old_page->0
                } else {
                    fresh(*old(batch), *final(batch), id)
                }
                &&& final(batch).pages() == old(batch).pages().insert(
                    id,
                    crate::node::node_bytes(node@, old(batch).size() as nat),
                )
                &&& forall|x: PageId| #[trigger]
                    final(batch).own(x) == (old(batch).own(x) || x == id)
            },
            Err(e) => {
                &&& node_len(node@) > old(batch).size() || old(batch).next() >= crate::page::MAX_PAGES
                &&& final(batch).pages() == old(batch).pages()
                &&& forall|x: PageId| #[trigger] final(batch).own(x) == old(batch).own(x)
            },
        },
{
    let ghost b0 = *batch;
    let ps: u32 = batch.page_size();
    proof {
        b0.lemma_facts();
    }
    if node.encoded_size() > ps as usize {
        return Err(Error::corrupted(old_page, "node does not fit its page"));
    }
    let encoded = node.encode(ps);
    let reuse: Option<PageId> = match old_page {
        Some(id) => if batch.owns(id) {
            Some(id)
        } else {
            None
        },
        None => None,
    };
    let id: PageId = match reuse {
        Some(id) => id,
        None => {
            let t = match node {
                Node::Leaf { entries } => PageType::Leaf,
                Node::Branch { first_child, entries } => PageType::Branch,
            };
            match batch.allocate(t) {
                Ok(id) => id,
                Err(e) => {
                    return Err(e);
                },
            }
        },
    };
    let ghost b1 = *batch;
    let done = batch.write_page(id, encoded);
    proof {
        assert(b1.own(id));
        assert(done is Ok);
        if reuse is Some {
            assert(batch.pages() == b0.pages().insert(id, encoded@));
        } else {
            assert(batch.pages() =~= b0.pages().insert(id, encoded@));
        }
        assert forall|x: PageId| #[trigger] batch.own(x) == (b0.own(x) || x == id) by {
            assert(b1.own(x) == (b0.own(x) || x == id));
        }
        if b0.free_ok() {
            assert forall|x: PageId| #[trigger] batch.spare(x) implies b0.spare(x) by {
                assert(b1.spare(x));
            }
            assert forall|x: PageId| #[trigger] fresh(b0, *batch, x) implies b0.spare(x)
                && !batch.spare(x) by {
                assert(x == id);
                assert(batch.spare(x) == b1.spare(x));
            }
        }
    }
    Ok(id)
}

/// A page with a node on it reads as that node.
proof fn lemma_written_node(n: NodeV, ps: u32)
    requires
        node_len(n) <= ps <= 65536,
        crate::node::node_sorted(n),
    ensures
        crate::node::node_bytes(n, ps as nat).len() == ps,
        node_of(crate::node::node_bytes(n, ps as nat)) == Some(n),
{
    crate::node::lemma_node_bytes_len(n, ps as nat);
    crate::node::law_node_decode_inverts_encode(
        n,
        ps as nat,
        crate::node::node_bytes(n, ps as nat),
    );
}

// ---------------------------------------------------------------------
// Inserting
// ---------------------------------------------------------------------

/// What an insert left of a node: one page, or two and the key between.
pub enum Insert {
    Done(PageId),
    Split(PageId, Vec<u8>, PageId),
}

/// The largest cell a leaf of this page size has.
pub open spec fn cell_max(ps: u32) -> int {
    7 + max_key(ps) + inline_limit(ps)
}

proof fn lemma_cell_max(e: Entry, ps: u32)
    requires
        page_size_ok(ps),
        e.0.len() <= max_key(ps),
        e.1.ok(ps),
    ensures
        crate::node::leaf_cell_len((e.0, e.1.vref())) <= cell_max(ps),
{
}

/// What holds of a leaf's entries while they are in memory.
pub open spec fn leaf_ready<'p, S: Storage>(
    b: WriteBatch<'p, S>,
    page: PageId,
    e: Seq<Entry>,
    lo: Option<Seq<u8>>,
    hi: Option<Seq<u8>>,
) -> bool {
    &&& b.free_ok()
    &&& page >= 2
    &&& !b.spare(page)
    &&& crate::tree::entries_ok(page, e, b.size(), lo, hi)
    &&& forall|i: int| 0 <= i < e.len() ==> (#[trigger] e[i]).1.holds(b.pages(), b.size())
        && value_unspared(b, e[i].1)
}

/// A sublist of entries keeps what holds of the whole.
proof fn lemma_entries_sub(
    page: PageId,
    id: PageId,
    e: Seq<Entry>,
    from: int,
    to: int,
    ps: u32,
    lo: Option<Seq<u8>>,
    hi: Option<Seq<u8>>,
    lo2: Option<Seq<u8>>,
    hi2: Option<Seq<u8>>,
)
    requires
        crate::tree::entries_ok(page, e, ps, lo, hi),
        0 <= from <= to <= e.len(),
        forall|i: int|
            from <= i < to ==> crate::tree::in_range((#[trigger] e[i]).0, lo2, hi2) && !e[i].1.has(id),
    ensures
        crate::tree::entries_ok(id, e.subrange(from, to), ps, lo2, hi2),
{
    let f = e.subrange(from, to);
    assert forall|i: int| 0 <= i < f.len() implies #[trigger] f[i] == e[from + i] by {}
    lemma_sorted_sub(e, from, to);
    assert forall|i: int, j: int| 0 <= i < j < f.len() implies crate::tree::values_disjoint(
        (#[trigger] f[i]).1,
        (#[trigger] f[j]).1,
    ) by {
        assert(f[i] == e[from + i] && f[j] == e[from + j]);
    }
}

/// The pages of a sublist are pages of the whole.
proof fn lemma_has_sub(page: PageId, id: PageId, e: Seq<Entry>, from: int, to: int, x: PageId)
    requires
        0 <= from <= to <= e.len(),
        Tree::Leaf(id, e.subrange(from, to)).has(x),
    ensures
        x == id || Tree::Leaf(page, e).has(x),
        x == id || exists|i: int| from <= i < to && (#[trigger] e[i]).1.has(x),
{
    let f = e.subrange(from, to);
    if x != id {
        let i = choose|i: int| 0 <= i < f.len() && (#[trigger] f[i]).1.has(x);
        assert(f[i] == e[from + i]);
        assert(e[from + i].1.has(x));
        crate::tree::lemma_leaf_has(page, e, from + i, x);
    }
}

/// A stored value nobody wrote to is still there.
proof fn lemma_value_kept<'p, S: Storage>(
    a: WriteBatch<'p, S>,
    b: WriteBatch<'p, S>,
    page: PageId,
    v: Stored,
)
    requires
        a.wf(),
        a.free_ok(),
        extends(a, b),
        only_page(a, b, page),
        v.holds(a.pages(), a.size()),
        value_unspared(a, v),
        !v.has(page),
    ensures
        v.holds(b.pages(), a.size()),
{
    a.lemma_facts();
    assert forall|x: PageId| #[trigger] v.has(x) && a.pages().contains_key(x) implies
        b.pages().contains_key(x) && crate::tree::same_page(a.pages()[x], b.pages()[x]) by {
        assert(!a.spare(x));
        assert(x != page);
        assert(!fresh(a, b, x));
    }
    crate::tree::lemma_stored_frame(v, a.pages(), b.pages(), a.size());
}

/// A sublist of entries, on a page of its own, is a sound leaf.
proof fn lemma_leaf_part<'p, S: Storage>(
    a: WriteBatch<'p, S>,
    b: WriteBatch<'p, S>,
    page: PageId,
    id: PageId,
    e: Seq<Entry>,
    from: int,
    to: int,
    lo: Option<Seq<u8>>,
    hi: Option<Seq<u8>>,
    lo2: Option<Seq<u8>>,
    hi2: Option<Seq<u8>>,
)
    requires
        a.wf(),
        extends(a, b),
        leaf_ready(a, page, e, lo, hi),
        only_page(a, b, page),
        0 <= from <= to <= e.len(),
        id == page || fresh(a, b, id),
        b.pages().contains_key(id),
        b.pages()[id].len() == a.size(),
        node_of(b.pages()[id]) == Some(NodeV::Leaf(entry_cells(e.subrange(from, to)))),
        node_len(NodeV::Leaf(entry_cells(e.subrange(from, to)))) <= a.size(),
        forall|i: int| from <= i < to ==> crate::tree::in_range((#[trigger] e[i]).0, lo2, hi2),
    ensures
        Tree::Leaf(id, e.subrange(from, to)).ok(a.size(), lo2, hi2),
        Tree::Leaf(id, e.subrange(from, to)).holds(b.pages(), a.size()),
{
    let f = e.subrange(from, to);
    let ps = a.size();
    a.lemma_facts();
    b.lemma_facts();
    assert forall|i: int| from <= i < to implies !(#[trigger] e[i]).1.has(id) by {
        if e[i].1.has(id) {
            assert(value_unspared(a, e[i].1));
            assert(!a.spare(id));
            assert(!e[i].1.has(page));
        }
    }
    lemma_entries_sub(page, id, e, from, to, ps, lo, hi, lo2, hi2);
    assert forall|i: int| 0 <= i < f.len() implies (#[trigger] f[i]).1.holds(b.pages(), ps) by {
        assert(f[i] == e[from + i]);
        lemma_value_kept(a, b, page, e[from + i].1);
    }
    assert(id >= 2);
}

proof fn lemma_cells_sorted(e: Seq<Entry>)
    ensures
        leaf_keys(entry_cells(e)) == entry_keys(e),
{
    assert(leaf_keys(entry_cells(e)) =~= entry_keys(e));
}

proof fn lemma_leaf_view_sub(v: Seq<(Vec<u8>, ValueRef)>, e: Seq<Entry>, from: int, to: int)
    requires
        leaf_view(v) == entry_cells(e),
        0 <= from <= to <= v.len(),
    ensures
        e.len() == v.len(),
        leaf_view(v.subrange(from, to)) == entry_cells(e.subrange(from, to)),
{
    assert(leaf_view(v).len() == v.len() && entry_cells(e).len() == e.len());
    assert forall|i: int| 0 <= i < to - from implies leaf_view(v.subrange(from, to))[i]
        == entry_cells(e.subrange(from, to))[i] by {
        assert(leaf_view(v)[from + i] == entry_cells(e)[from + i]);
    }
    assert(leaf_view(v.subrange(from, to)) =~= entry_cells(e.subrange(from, to)));
}

proof fn lemma_leaf_sorted_view(v: Seq<(Vec<u8>, ValueRef)>, e: Seq<Entry>)
    requires
        leaf_view(v) == entry_cells(e),
    ensures
        leaf_keys(leaf_view(v)) == entry_keys(e),
        e.len() == v.len(),
{
    assert(leaf_view(v).len() == v.len() && entry_cells(e).len() == e.len());
    assert(leaf_keys(leaf_view(v)) =~= entry_keys(e));
}

/// What a finished insert owes: the tree, or the two halves of it, and
/// nothing else disturbed.
pub open spec fn insert_done<'p, S: Storage>(
    a: WriteBatch<'p, S>,
    b: WriteBatch<'p, S>,
    whole: Tree,
    page: PageId,
    r: Insert,
    u: Tree,
    w: Tree,
    lo: Option<Seq<u8>>,
    hi: Option<Seq<u8>>,
) -> bool {
    let ps = a.size();
    match r {
        Insert::Done(id) => {
            &&& u.root() == id
            &&& u.ok(ps, lo, hi)
            &&& u.holds(b.pages(), ps)
            &&& forall|x: PageId| #[trigger] u.has(x) ==> whole.has(x) || fresh(a, b, x)
            &&& forall|k: Seq<u8>| #[trigger] u.find(k) == whole.find(k)
        },
        Insert::Split(l, sep, right) => {
            &&& u.root() == l
            &&& w.root() == right
            &&& u.ok(ps, lo, Some(sep@))
            &&& w.ok(ps, Some(sep@), hi)
            &&& u.holds(b.pages(), ps)
            &&& w.holds(b.pages(), ps)
            &&& crate::tree::disjoint(u, w)
            &&& sep@.len() <= max_key(ps)
            &&& crate::tree::in_range(sep@, lo, hi)
            &&& (lo matches Some(l) ==> lex_lt(l, sep@))
            &&& forall|x: PageId| #[trigger] u.has(x) ==> whole.has(x) || fresh(a, b, x)
            &&& forall|x: PageId| #[trigger] w.has(x) ==> whole.has(x) || fresh(a, b, x)
            &&& forall|k: Seq<u8>| #[trigger]
                whole.find(k) == (if lex_lt(k, sep@) {
                    u.find(k)
                } else {
                    w.find(k)
                })
        },
    }
}

/// Where to split an overfull leaf: by encoded size, so wildly different
/// value sizes still balance, and so that both halves fit.
fn leaf_split(entries: &Vec<(Vec<u8>, ValueRef)>, ps: u32) -> (r: usize)
    requires
        entries@.len() >= 2,
        page_size_ok(ps),
        crate::node::leaf_len(leaf_view(entries@)) <= NODE_BOUND,
    ensures
        1 <= r < entries@.len(),
        ({
            let all = leaf_view(entries@);
            (forall|i: int|
                0 <= i < all.len() ==> crate::node::leaf_cell_len(#[trigger] all[i]) <= cell_max(ps))
                && ps - 16 < crate::node::leaf_len(all) <= ps - 16 + cell_max(ps)
                ==> crate::node::leaf_len(all.take(r as int)) <= ps - 16
                && crate::node::leaf_len(all.skip(r as int)) <= ps - 16
        }),
{
    let ghost all = leaf_view(entries@);
    let n: usize = entries.len();
    let whole = leaf_size(entries);
    let half: usize = whole / 2;
    let mut acc: usize = 0;
    let mut i: usize = 0;
    proof {
        assert(all.take(0) =~= Seq::empty());
    }
    while i < n
        invariant
            i <= n == entries@.len(),
            n >= 2,
            page_size_ok(ps),
            all == leaf_view(entries@),
            whole == crate::node::leaf_len(all),
            whole <= NODE_BOUND,
            half == whole / 2,
            acc == crate::node::leaf_len(all.take(i as int)),
            i > 0 ==> acc < half,
        decreases n - i,
    {
        let cell: usize = {
            proof {
                crate::node::lemma_leaf_len_min(all);
                assert(all[i as int] == (entries@[i as int].0@, entries@[i as int].1@));
            }
            crate::node::leaf_cell_size(entries[i].0.as_slice(), &entries[i].1)
        };
        proof {
            lemma_leaf_len_take(all, i as int);
            lemma_leaf_len_cut(all, i as int);
            lemma_leaf_len_cut(all, i + 1);
        }
        let before: usize = acc;
        acc = acc + cell;
        if acc >= half {
            let room: usize = ps as usize - PAGE_HEADER_LEN;
            if i + 1 >= n {
                proof {
                    assert(i == n - 1);
                    assert(all.skip(n - 1) =~= seq![all[n - 1]]);
                    lemma_leaf_len_one(all[n - 1]);
                }
                return n - 1;
            }
            if acc > room && i > 0 {
                return i;
            }
            return i + 1;
        }
        i = i + 1;
    }
    proof {
        assert(all.take(n as int) =~= all);
    }
    n - 1
}

proof fn lemma_leaf_len_one(c: LeafCell)
    ensures
        crate::node::leaf_len(seq![c]) == crate::node::leaf_cell_len(c),
{
    assert(seq![c].skip(1) =~= Seq::empty());
    reveal_with_fuel(crate::node::leaf_len, 2);
}

proof fn lemma_leaf_len_take(all: Seq<LeafCell>, i: int)
    requires
        0 <= i < all.len(),
    ensures
        crate::node::leaf_len(all.take(i + 1)) == crate::node::leaf_len(all.take(i))
            + crate::node::leaf_cell_len(all[i]),
{
    assert(all.take(i + 1) =~= all.take(i) + seq![all[i]]);
    crate::node::lemma_leaf_len_add(all.take(i), seq![all[i]]);
    lemma_leaf_len_one(all[i]);
}

proof fn lemma_leaf_len_cut(all: Seq<LeafCell>, i: int)
    requires
        0 <= i <= all.len(),
    ensures
        crate::node::leaf_len(all) == crate::node::leaf_len(all.take(i)) + crate::node::leaf_len(
            all.skip(i),
        ),
{
    assert(all =~= all.take(i) + all.skip(i));
    crate::node::lemma_leaf_len_add(all.take(i), all.skip(i));
}

/// Bytes the cells of a leaf take.
fn leaf_size(entries: &Vec<(Vec<u8>, ValueRef)>) -> (r: usize)
    requires
        crate::node::leaf_len(leaf_view(entries@)) <= NODE_BOUND,
    ensures
        r == crate::node::leaf_len(leaf_view(entries@)),
{
    let ghost all = leaf_view(entries@);
    let mut total: usize = 0;
    let mut i: usize = 0;
    proof {
        assert(all.take(0) =~= Seq::empty());
    }
    while i < entries.len()
        invariant
            i <= entries@.len(),
            all == leaf_view(entries@),
            crate::node::leaf_len(all) <= NODE_BOUND,
            total == crate::node::leaf_len(all.take(i as int)),
        decreases entries@.len() - i,
    {
        proof {
            crate::node::lemma_leaf_len_min(all);
            lemma_leaf_len_take(all, i as int);
            lemma_leaf_len_cut(all, i + 1);
            assert(all[i as int] == (entries@[i as int].0@, entries@[i as int].1@));
        }
        total = total + crate::node::leaf_cell_size(entries[i].0.as_slice(), &entries[i].1);
        i = i + 1;
    }
    proof {
        assert(all.take(i as int) =~= all);
    }
    total
}

/// How an edited leaf stands on its pages: on one where it fits, or else on
/// two, neither empty, that hold its entries in order and both fit.
pub open spec fn leaf_laid(
    e: Seq<Entry>,
    ps: u32,
    ins: Insert,
    left: Tree,
    right: Tree,
) -> bool {
    match ins {
        Insert::Done(id) => {
            &&& left == Tree::Leaf(id, e)
            &&& crate::node::leaf_len(entry_cells(e)) <= ps - 16
        },
        Insert::Split(a, sep, b) => {
            &&& crate::node::leaf_len(entry_cells(e)) > ps - 16
            &&& left matches Tree::Leaf(i, el) && right matches Tree::Leaf(j, er) && {
                &&& i == a
                &&& j == b
                &&& el.len() > 0
                &&& er.len() > 0
                &&& el + er == e
                &&& sep@ == er[0].0
                &&& crate::node::leaf_len(entry_cells(el)) <= ps - 16
                &&& crate::node::leaf_len(entry_cells(er)) <= ps - 16
            }
        },
    }
}

/// Put an edited leaf back on pages, splitting it when it outgrew one.
fn finish_leaf<'p, S: Storage>(
    batch: &mut WriteBatch<'p, S>,
    old_page: PageId,
    entries: Vec<(Vec<u8>, ValueRef)>,
    Ghost(e): Ghost<Seq<Entry>>,
    Ghost(lo): Ghost<Option<Seq<u8>>>,
    Ghost(hi): Ghost<Option<Seq<u8>>>,
) -> (r: Result<(Insert, Ghost<(Tree, Tree)>)>)
    requires
        old(batch).wf(),
        crate::node::leaf_len(leaf_view(entries@)) <= NODE_BOUND - 16,
    ensures
        final(batch).next() <= old(batch).next() + 2,
        extends(*old(batch), *final(batch)),
        *final(final(batch).pager) == *final(old(batch).pager),
        leaf_ready(*old(batch), old_page, e, lo, hi) && leaf_view(entries@) == entry_cells(e)
            && crate::node::leaf_len(entry_cells(e)) <= old(batch).size() - 16 + cell_max(
            old(batch).size(),
        ) ==> match r {
            Ok((ins, g)) => only_page(*old(batch), *final(batch), old_page) && insert_done(
                *old(batch),
                *final(batch),
                Tree::Leaf(old_page, e),
                old_page,
                ins,
                g@.0,
                g@.1,
                lo,
                hi,
            ) && leaf_laid(e, old(batch).size(), ins, g@.0, g@.1),
            Err(_) => final(batch).next() >= crate::page::MAX_PAGES,
        },
{
    let ghost b0 = *batch;
    let ps: u32 = batch.page_size();
    let ghost whole = Tree::Leaf(old_page, e);
    let ghost good = leaf_ready(b0, old_page, e, lo, hi) && leaf_view(entries@) == entry_cells(e)
        && crate::node::leaf_len(entry_cells(e)) <= ps - 16 + cell_max(ps);
    proof {
        b0.lemma_facts();
        if good {
            lemma_leaf_sorted_view(entries@, e);
        }
    }
    let size: usize = leaf_size(&entries);
    if size <= ps as usize - PAGE_HEADER_LEN || entries.len() < 2 {
        let ghost view = leaf_view(entries@);
        let node = Node::Leaf { entries };
        let id: PageId = match write_node(batch, Some(old_page), &node) {
            Ok(id) => id,
            Err(x) => {
                proof {
                    if good {
                        lemma_short_leaf(e, ps);
                    }
                }
                return Err(x);
            },
        };
        let ghost u = Tree::Leaf(id, e);
        proof {
            if good {
                lemma_cells_sorted(e);
                lemma_written_node(NodeV::Leaf(entry_cells(e)), ps);
                assert(e.subrange(0, e.len() as int) =~= e);
                lemma_short_leaf(e, ps);
                assert(id == old_page || fresh(b0, *batch, id));
                assert(only_page(b0, *batch, old_page)) by {
                    assert forall|x: PageId| #[trigger]
                        b0.pages().contains_key(x) && !(x == old_page && b0.own(x)) && !fresh(
                            b0,
                            *batch,
                            x,
                        ) implies batch.pages().contains_key(x) && batch.pages()[x]
                        == b0.pages()[x] by {
                        assert(x != id);
                    }
                }
                lemma_leaf_part(b0, *batch, old_page, id, e, 0, e.len() as int, lo, hi, lo, hi);
                assert forall|x: PageId| #[trigger] u.has(x) implies whole.has(x) || fresh(
                    b0,
                    *batch,
                    x,
                ) by {
                    lemma_has_sub(old_page, id, e, 0, e.len() as int, x);
                }
                assert forall|k: Seq<u8>| #[trigger] u.find(k) == whole.find(k) by {}
            }
        }
        return Ok((Insert::Done(id), Ghost((u, u))));
    }
    let at: usize = leaf_split(&entries, ps);
    let ghost v = entries@;
    let mut left_entries: Vec<(Vec<u8>, ValueRef)> = entries;
    let right_entries: Vec<(Vec<u8>, ValueRef)> = left_entries.split_off(at);
    let sep: Vec<u8> = copy_vec(right_entries[0].0.as_slice());
    let ghost el = e.subrange(0, at as int);
    let ghost er = e.subrange(at as int, e.len() as int);
    proof {
        let all = leaf_view(v);
        lemma_leaf_len_cut(all, at as int);
        assert(leaf_view(left_entries@) =~= all.take(at as int));
        assert(leaf_view(right_entries@) =~= all.skip(at as int));
        if good {
            lemma_leaf_view_sub(v, e, 0, at as int);
            lemma_leaf_view_sub(v, e, at as int, e.len() as int);
            assert forall|i: int| 0 <= i < all.len() implies crate::node::leaf_cell_len(
                #[trigger] all[i],
            ) <= cell_max(ps) by {
                assert(all[i] == entry_cells(e)[i]);
                lemma_cell_max(e[i], ps);
            }
        }
    }
    let left: PageId = match write_node(batch, Some(old_page), &Node::Leaf { entries: left_entries }) {
        Ok(id) => id,
        Err(x) => {
            return Err(x);
        },
    };
    let ghost b1 = *batch;
    let right: PageId = match write_node(batch, None, &Node::Leaf { entries: right_entries }) {
        Ok(id) => id,
        Err(x) => {
            proof {
                lemma_extends_trans(b0, b1, *batch);
            }
            return Err(x);
        },
    };
    let ghost u = Tree::Leaf(left, el);
    let ghost w = Tree::Leaf(right, er);
    proof {
        lemma_extends_trans(b0, b1, *batch);
        if good {
            assert(sep@ == e[at as int].0) by {
                assert(leaf_view(v)[at as int] == entry_cells(e)[at as int]);
            }
            lemma_leaf_split_done(b0, b1, *batch, old_page, e, at as int, left, right, lo, hi, sep);
            assert(el + er =~= e);
        }
    }
    Ok((Insert::Split(left, sep, right), Ghost((u, w))))
}

#[verifier::rlimit(40)]
proof fn lemma_leaf_split_done<'p, S: Storage>(
    b0: WriteBatch<'p, S>,
    b1: WriteBatch<'p, S>,
    b2: WriteBatch<'p, S>,
    page: PageId,
    e: Seq<Entry>,
    at: int,
    left: PageId,
    right: PageId,
    lo: Option<Seq<u8>>,
    hi: Option<Seq<u8>>,
    sep: Vec<u8>,
)
    requires
        b0.wf(),
        extends(b0, b1),
        extends(b1, b2),
        extends(b0, b2),
        leaf_ready(b0, page, e, lo, hi),
        0 < at < e.len(),
        sep@ == e[at].0,
        if b0.own(page) {
            left == page
        } else {
            fresh(b0, b1, left)
        },
        fresh(b1, b2, right),
        left >= 2,
        right >= 2,
        forall|x: PageId| #[trigger] b1.own(x) == (b0.own(x) || x == left),
        forall|x: PageId| #[trigger] b2.own(x) == (b1.own(x) || x == right),
        node_len(NodeV::Leaf(entry_cells(e.subrange(0, at)))) <= b0.size(),
        node_len(NodeV::Leaf(entry_cells(e.subrange(at, e.len() as int)))) <= b0.size(),
        b1.pages() == b0.pages().insert(
            left,
            crate::node::node_bytes(
                NodeV::Leaf(entry_cells(e.subrange(0, at))),
                b0.size() as nat,
            ),
        ),
        b2.pages() == b1.pages().insert(
            right,
            crate::node::node_bytes(
                NodeV::Leaf(entry_cells(e.subrange(at, e.len() as int))),
                b0.size() as nat,
            ),
        ),
    ensures
        only_page(b0, b2, page),
        insert_done(
            b0,
            b2,
            Tree::Leaf(page, e),
            page,
            Insert::Split(left, sep, right),
            Tree::Leaf(left, e.subrange(0, at)),
            Tree::Leaf(right, e.subrange(at, e.len() as int)),
            lo,
            hi,
        ),
{
    let ps = b0.size();
    let s = sep@;
    let el = e.subrange(0, at);
    let er = e.subrange(at, e.len() as int);
    let u = Tree::Leaf(left, el);
    let w = Tree::Leaf(right, er);
    let whole = Tree::Leaf(page, e);
    b0.lemma_facts();
    lemma_sorted_sub(e, 0, at);
    lemma_sorted_sub(e, at, e.len() as int);
    lemma_cells_sorted(el);
    lemma_cells_sorted(er);
    lemma_written_node(NodeV::Leaf(entry_cells(el)), ps);
    lemma_written_node(NodeV::Leaf(entry_cells(er)), ps);
    assert(b1.own(left));
    assert(left != right);
    assert(fresh(b0, b2, right)) by {
        if b0.own(right) {
            assert(b1.own(right));
        }
    }
    assert(left == page || fresh(b0, b2, left)) by {
        assert(b2.own(left));
    }
    let ks = entry_keys(e);
    assert forall|i: int| 0 <= i < at implies crate::tree::in_range(
        (#[trigger] e[i]).0,
        lo,
        Some(s),
    ) by {
        assert(lex_lt(ks[i], ks[at]));
    }
    assert forall|i: int| at <= i < e.len() implies crate::tree::in_range(
        (#[trigger] e[i]).0,
        Some(s),
        hi,
    ) by {
        if i > at {
            assert(lex_lt(ks[at], ks[i]));
        }
    }
    assert forall|x: PageId| #[trigger]
        b0.pages().contains_key(x) && !(x == page && b0.own(x)) && !fresh(b0, b2, x) implies
        b2.pages().contains_key(x) && b2.pages()[x] == b0.pages()[x] by {
        assert(x != right);
        assert(x != left);
    }
    lemma_leaf_part(b0, b2, page, left, e, 0, at, lo, hi, lo, Some(s));
    lemma_leaf_part(b0, b2, page, right, e, at, e.len() as int, lo, hi, Some(s), hi);
    assert forall|x: PageId| #[trigger] u.has(x) implies whole.has(x) || fresh(b0, b2, x) by {
        lemma_has_sub(page, left, e, 0, at, x);
    }
    assert forall|x: PageId| #[trigger] w.has(x) implies whole.has(x) || fresh(b0, b2, x) by {
        lemma_has_sub(page, right, e, at, e.len() as int, x);
    }
    assert forall|x: PageId| !(#[trigger] u.has(x) && #[trigger] w.has(x)) by {
        if u.has(x) && w.has(x) {
            lemma_has_sub(page, left, e, 0, at, x);
            lemma_has_sub(page, right, e, at, e.len() as int, x);
            lemma_halves_disjoint(b0, b2, page, e, at, left, right, lo, hi, x);
        }
    }
    if let Some(l) = lo {
        assert(crate::tree::in_range(e[0].0, lo, hi));
        assert(lex_lt(ks[0], ks[at]));
        if l != e[0].0 {
            lemma_lex_trans(l, e[0].0, s);
        }
    }
    assert forall|k: Seq<u8>| #[trigger] whole.find(k) == (if lex_lt(k, s) {
        u.find(k)
    } else {
        w.find(k)
    }) by {
        lemma_entries_cut(e, at, k);
    }
}

proof fn lemma_short_leaf(e: Seq<Entry>, ps: u32)
    requires
        page_size_ok(ps),
        forall|i: int| 0 <= i < e.len() ==> (#[trigger] e[i]).0.len() <= max_key(ps) && e[i].1.ok(ps),
        crate::node::leaf_len(entry_cells(e)) <= ps - 16 || e.len() < 2,
    ensures
        node_len(NodeV::Leaf(entry_cells(e))) <= ps,
{
    if e.len() == 1 {
        assert(entry_cells(e) =~= seq![(e[0].0, e[0].1.vref())]);
        lemma_leaf_len_one((e[0].0, e[0].1.vref()));
        lemma_cell_max(e[0], ps);
    }
}

proof fn lemma_halves_disjoint<'p, S: Storage>(
    a: WriteBatch<'p, S>,
    b: WriteBatch<'p, S>,
    page: PageId,
    e: Seq<Entry>,
    at: int,
    left: PageId,
    right: PageId,
    lo: Option<Seq<u8>>,
    hi: Option<Seq<u8>>,
    x: PageId,
)
    requires
        a.wf(),
        extends(a, b),
        leaf_ready(a, page, e, lo, hi),
        0 <= at <= e.len(),
        left == page || fresh(a, b, left),
        fresh(a, b, right),
        left != right,
    ensures
        !((x == left || exists|i: int| 0 <= i < at && (#[trigger] e[i]).1.has(x)) && (x == right
            || exists|i: int| at <= i < e.len() && (#[trigger] e[i]).1.has(x))),
{
    let inl = x == left || exists|i: int| 0 <= i < at && (#[trigger] e[i]).1.has(x);
    let inr = x == right || exists|i: int| at <= i < e.len() && (#[trigger] e[i]).1.has(x);
    if !inl || !inr {
    } else if x == left {
        let j = choose|j: int| at <= j < e.len() && (#[trigger] e[j]).1.has(x);
        assert(value_unspared(a, e[j].1));
        assert(!a.spare(x));
        assert(x == page);
        assert(!e[j].1.has(page));
    } else {
        let i = choose|i: int| 0 <= i < at && (#[trigger] e[i]).1.has(x);
        assert(value_unspared(a, e[i].1));
        assert(!a.spare(x));
        assert(x != right);
        let j = choose|j: int| at <= j < e.len() && (#[trigger] e[j]).1.has(x);
        assert(crate::tree::values_disjoint(e[i].1, e[j].1));
    }
}

/// Looking in the right half finds what the whole has.
proof fn lemma_entries_cut(e: Seq<Entry>, at: int, k: Seq<u8>)
    requires
        sorted(entry_keys(e)),
        0 < at < e.len(),
    ensures
        entries_find(e, k) == (if lex_lt(k, e[at].0) {
            entries_find(e.subrange(0, at), k)
        } else {
            entries_find(e.subrange(at, e.len() as int), k)
        }),
{
    let l = e.subrange(0, at);
    let r = e.subrange(at, e.len() as int);
    let ks = entry_keys(e);
    lemma_sorted_sub(e, 0, at);
    lemma_sorted_sub(e, at, e.len() as int);
    if exists|i: int| 0 <= i < e.len() && (#[trigger] e[i]).0 == k {
        let i = crate::tree::entry_index(e, k);
        assert(e[i].0 == k);
        lemma_entries_find(e, k, i);
        if i < at {
            assert(lex_lt(ks[i], ks[at]));
            assert(l[i] == e[i]);
            lemma_entries_find(l, k, i);
        } else {
            if i > at {
                assert(lex_lt(ks[at], ks[i]));
            }
            crate::tree::lemma_lex_facts2(e[at].0, k);
            assert(r[i - at] == e[i]);
            lemma_entries_find(r, k, i - at);
        }
    } else {
        assert forall|i: int| 0 <= i < l.len() implies (#[trigger] l[i]).0 != k by {
            assert(e[i].0 != k);
        }
        assert forall|i: int| 0 <= i < r.len() implies (#[trigger] r[i]).0 != k by {
            assert(e[at + i].0 != k);
        }
    }
}

proof fn lemma_sorted_sub(e: Seq<Entry>, from: int, to: int)
    requires
        sorted(entry_keys(e)),
        0 <= from <= to <= e.len(),
    ensures
        sorted(entry_keys(e.subrange(from, to))),
{
    let ks = entry_keys(e.subrange(from, to));
    assert forall|i: int, j: int| 0 <= i < j < ks.len() implies lex_lt(
        #[trigger] ks[i],
        #[trigger] ks[j],
    ) by {
        assert(entry_keys(e)[from + i] == ks[i] && entry_keys(e)[from + j] == ks[j]);
    }
}

// ---------------------------------------------------------------------
// Branches
// ---------------------------------------------------------------------

/// What holds of a branch while it is in memory.
pub open spec fn branch_ready<'p, S: Storage>(
    b: WriteBatch<'p, S>,
    page: PageId,
    seps: Seq<Seq<u8>>,
    kids: Seq<Tree>,
    lo: Option<Seq<u8>>,
    hi: Option<Seq<u8>>,
) -> bool {
    &&& b.free_ok()
    &&& page >= 2
    &&& !b.spare(page)
    &&& kids.len() == seps.len() + 1
    &&& crate::tree::seps_ok(seps, b.size(), lo, hi)
    &&& forall|i: int|
        0 <= i < kids.len() ==> (#[trigger] kids[i]).ok(
            b.size(),
            kid_lo(seps, lo, i),
            kid_hi(seps, hi, i),
        ) && !kids[i].has(page) && kids[i].holds(b.pages(), b.size()) && unspared(b, kids[i])
    &&& forall|i: int, j: int|
        0 <= i < j < kids.len() ==> crate::tree::disjoint(#[trigger] kids[i], #[trigger] kids[j])
}

/// A tree nobody wrote to is still there.
proof fn lemma_tree_kept<'p, S: Storage>(
    a: WriteBatch<'p, S>,
    b: WriteBatch<'p, S>,
    page: PageId,
    t: Tree,
)
    requires
        a.wf(),
        a.free_ok(),
        extends(a, b),
        only_page(a, b, page),
        t.holds(a.pages(), a.size()),
        unspared(a, t),
        !t.has(page),
    ensures
        t.holds(b.pages(), a.size()),
{
    a.lemma_facts();
    assert forall|x: PageId| #[trigger] t.has(x) && a.pages().contains_key(x) implies
        b.pages().contains_key(x) && crate::tree::same_page(a.pages()[x], b.pages()[x]) by {
        assert(!a.spare(x));
        assert(x != page);
        assert(!fresh(a, b, x));
    }
    crate::tree::lemma_frame(t, a.pages(), b.pages(), a.size());
}

proof fn lemma_sorted_seps_sub(seps: Seq<Seq<u8>>, from: int, to: int)
    requires
        sorted(seps),
        0 <= from <= to <= seps.len(),
    ensures
        sorted(seps.subrange(from, to)),
{
    let t = seps.subrange(from, to);
    assert forall|i: int, j: int| 0 <= i < j < t.len() implies lex_lt(
        #[trigger] t[i],
        #[trigger] t[j],
    ) by {
        assert(t[i] == seps[from + i] && t[j] == seps[from + j]);
    }
}

/// A run of children, under a page of its own, is a sound branch.
#[verifier::rlimit(40)]
proof fn lemma_branch_part<'p, S: Storage>(
    a: WriteBatch<'p, S>,
    b: WriteBatch<'p, S>,
    page: PageId,
    id: PageId,
    seps: Seq<Seq<u8>>,
    kids: Seq<Tree>,
    from: int,
    to: int,
    lo: Option<Seq<u8>>,
    hi: Option<Seq<u8>>,
)
    requires
        a.wf(),
        extends(a, b),
        branch_ready(a, page, seps, kids, lo, hi),
        only_page(a, b, page),
        0 <= from <= to <= seps.len(),
        id == page || fresh(a, b, id),
        b.pages().contains_key(id),
        b.pages()[id].len() == a.size(),
        ({
            let t = Tree::Branch(id, seps.subrange(from, to), kids.subrange(from, to + 1));
            node_of(b.pages()[id]) == Some(t.node()) && node_len(t.node()) <= a.size()
        }),
    ensures
        Tree::Branch(id, seps.subrange(from, to), kids.subrange(from, to + 1)).ok(
            a.size(),
            kid_lo(seps, lo, from),
            kid_hi(seps, hi, to),
        ),
        Tree::Branch(id, seps.subrange(from, to), kids.subrange(from, to + 1)).holds(
            b.pages(),
            a.size(),
        ),
{
    let ps = a.size();
    let s = seps.subrange(from, to);
    let k = kids.subrange(from, to + 1);
    let lo2 = kid_lo(seps, lo, from);
    let hi2 = kid_hi(seps, hi, to);
    a.lemma_facts();
    b.lemma_facts();
    lemma_sorted_seps_sub(seps, from, to);
    assert forall|i: int| 0 <= i < s.len() implies (#[trigger] s[i]).len() <= max_key(ps)
        && crate::tree::in_range(s[i], lo2, hi2) && crate::tree::above(s[i], lo2) by {
        assert(s[i] == seps[from + i]);
        assert(crate::tree::in_range(seps[from + i], lo, hi));
        if from > 0 {
            assert(lex_lt(seps[from - 1], seps[from + i]));
        }
        if to < seps.len() {
            assert(lex_lt(seps[from + i], seps[to]));
        }
    }
    assert forall|i: int| 0 <= i < k.len() implies (#[trigger] k[i]).ok(
        ps,
        kid_lo(s, lo2, i),
        kid_hi(s, hi2, i),
    ) && !k[i].has(id) && k[i].holds(b.pages(), ps) by {
        assert(k[i] == kids[from + i]);
        assert(kid_lo(s, lo2, i) == kid_lo(seps, lo, from + i)) by {
            if i > 0 {
                assert(s[i - 1] == seps[from + i - 1]);
            }
        }
        assert(kid_hi(s, hi2, i) == kid_hi(seps, hi, from + i)) by {
            if i < s.len() {
                assert(s[i] == seps[from + i]);
            }
        }
        assert(unspared(a, kids[from + i]));
        if kids[from + i].has(id) {
            assert(!a.spare(id));
        }
        lemma_tree_kept(a, b, page, kids[from + i]);
    }
    assert forall|i: int, j: int| 0 <= i < j < k.len() implies crate::tree::disjoint(
        #[trigger] k[i],
        #[trigger] k[j],
    ) by {
        assert(k[i] == kids[from + i] && k[j] == kids[from + j]);
    }
    assert(id >= 2);
}

/// The pages of a run of children are pages of the whole.
proof fn lemma_branch_has_sub(
    page: PageId,
    id: PageId,
    seps: Seq<Seq<u8>>,
    kids: Seq<Tree>,
    sub: Seq<Seq<u8>>,
    from: int,
    to: int,
    x: PageId,
)
    requires
        0 <= from <= to <= kids.len(),
        Tree::Branch(id, sub, kids.subrange(from, to)).has(x),
    ensures
        x == id || Tree::Branch(page, seps, kids).has(x),
        x == id || exists|i: int| from <= i < to && (#[trigger] kids[i]).has(x),
{
    let k = kids.subrange(from, to);
    if x != id {
        let i = choose|i: int| 0 <= i < k.len() && (#[trigger] k[i]).has(x);
        assert(k[i] == kids[from + i]);
        crate::tree::lemma_branch_has(page, seps, kids, from + i, x);
    }
}

/// Bytes the cells of a branch take.
fn branch_size(entries: &Vec<(Vec<u8>, PageId)>, upto: usize) -> (r: usize)
    requires
        upto <= entries@.len(),
        crate::node::branch_len(branch_view(entries@)) <= NODE_BOUND,
    ensures
        r == crate::node::branch_len(branch_view(entries@).take(upto as int)),
        r <= NODE_BOUND,
{
    let ghost all = branch_view(entries@);
    let mut total: usize = 0;
    let mut i: usize = 0;
    proof {
        assert(all.take(0) =~= Seq::empty());
        lemma_branch_len_cut(all, upto as int);
    }
    while i < upto
        invariant
            i <= upto <= entries@.len(),
            all == branch_view(entries@),
            crate::node::branch_len(all) <= NODE_BOUND,
            total == crate::node::branch_len(all.take(i as int)),
        decreases upto - i,
    {
        proof {
            crate::node::lemma_branch_len_min(all);
            lemma_branch_len_take(all, i as int);
            lemma_branch_len_cut(all, i + 1);
            assert(all[i as int] == (entries@[i as int].0@, entries@[i as int].1));
        }
        total = total + crate::node::branch_cell_size(entries[i].0.as_slice());
        i = i + 1;
    }
    total
}

proof fn lemma_branch_len_one(c: crate::node::BranchCell)
    ensures
        crate::node::branch_len(seq![c]) == crate::node::branch_cell_len(c),
{
    assert(seq![c].skip(1) =~= Seq::empty());
    reveal_with_fuel(crate::node::branch_len, 2);
}

proof fn lemma_branch_len_take(all: Seq<crate::node::BranchCell>, i: int)
    requires
        0 <= i < all.len(),
    ensures
        crate::node::branch_len(all.take(i + 1)) == crate::node::branch_len(all.take(i))
            + crate::node::branch_cell_len(all[i]),
{
    assert(all.take(i + 1) =~= all.take(i) + seq![all[i]]);
    crate::node::lemma_branch_len_add(all.take(i), seq![all[i]]);
    lemma_branch_len_one(all[i]);
}

proof fn lemma_branch_len_cut(all: Seq<crate::node::BranchCell>, i: int)
    requires
        0 <= i <= all.len(),
    ensures
        crate::node::branch_len(all) == crate::node::branch_len(all.take(i))
            + crate::node::branch_len(all.skip(i)),
{
    assert(all =~= all.take(i) + all.skip(i));
    crate::node::lemma_branch_len_add(all.take(i), all.skip(i));
}

/// Where to split an overfull branch: in the middle, moved as far as needed
/// for both halves to fit.
#[verifier::spinoff_prover]
#[verifier::rlimit(40)]
fn branch_split(entries: &Vec<(Vec<u8>, PageId)>, ps: u32) -> (r: usize)
    requires
        entries@.len() >= 3,
        page_size_ok(ps),
        crate::node::branch_len(branch_view(entries@)) <= NODE_BOUND,
    ensures
        1 <= r <= entries@.len() - 2,
        ({
            let all = branch_view(entries@);
            (forall|i: int|
                0 <= i < all.len() ==> crate::node::branch_cell_len(#[trigger] all[i]) <= 11 + max_key(
                    ps,
                )) && crate::node::branch_len(all) <= ps - 24 + 11 + max_key(ps)
                ==> crate::node::branch_len(all.take(r as int)) <= ps - 24
                && crate::node::branch_len(all.skip(r + 1)) <= ps - 24
        }),
{
    let ghost all = branch_view(entries@);
    let n: usize = entries.len();
    let room: usize = ps as usize - 24;
    let total: usize = branch_size(entries, n);
    let mut mid: usize = n / 2;
    if mid < 1 {
        mid = 1;
    }
    if mid > n - 2 {
        mid = n - 2;
    }
    proof {
        assert(all.take(n as int) =~= all);
        crate::node::lemma_branch_len_min(all);
    }
    let ghost fine = (forall|i: int|
        0 <= i < all.len() ==> crate::node::branch_cell_len(#[trigger] all[i]) <= 11 + max_key(ps))
        && crate::node::branch_len(all) <= ps - 24 + 11 + max_key(ps);
    let ghost mut shrunk = false;
    while mid > 1 && branch_size(entries, mid) > room
        invariant
            1 <= mid <= n - 2,
            n == entries@.len(),
            all == branch_view(entries@),
            crate::node::branch_len(all) <= NODE_BOUND,
            shrunk ==> crate::node::branch_len(all.take(mid + 1)) > room,
        decreases mid,
    {
        mid = mid - 1;
        proof {
            shrunk = true;
        }
    }
    proof {
        lemma_branch_len_take(all, mid as int);
        lemma_branch_len_cut(all, mid as int);
        lemma_branch_len_cut(all, mid + 1);
        if mid == 1 {
            assert(all.take(1) =~= seq![all[0]]);
            lemma_branch_len_one(all[0]);
        }
        assert(fine ==> crate::node::branch_len(all.take(mid as int)) <= room);
        if shrunk {
            assert(fine ==> crate::node::branch_len(all.skip(mid + 1)) <= room);
        }
    }
    let ghost low = mid;
    proof {
        assert forall|i: int| 0 <= i <= n implies #[trigger] crate::node::branch_len(all.take(i))
            <= total by {
            lemma_branch_len_cut(all, i);
        }
    }
    while mid < n - 2 && total - branch_size(entries, mid + 1) > room
        invariant
            1 <= low <= mid <= n - 2,
            n == entries@.len(),
            room == ps - 24,
            page_size_ok(ps),
            all == branch_view(entries@),
            total == crate::node::branch_len(all),
            total <= NODE_BOUND,
            forall|i: int| 0 <= i <= n ==> #[trigger] crate::node::branch_len(all.take(i)) <= total,
            fine ==> crate::node::branch_len(all.take(mid as int)) <= room,
            fine == ((forall|i: int|
                0 <= i < all.len() ==> crate::node::branch_cell_len(#[trigger] all[i]) <= 11
                    + max_key(ps)) && crate::node::branch_len(all) <= ps - 24 + 11 + max_key(ps)),
        decreases n - mid,
    {
        proof {
            lemma_branch_len_cut(all, mid + 1);
            lemma_branch_len_take(all, mid as int);
        }
        mid = mid + 1;
    }
    proof {
        lemma_branch_len_take(all, mid as int);
        lemma_branch_len_cut(all, mid + 1);
        if mid == n - 2 {
            assert(all.skip(mid + 1) =~= seq![all[n - 1]]);
            lemma_branch_len_one(all[n - 1]);
        }
    }
    mid
}

proof fn lemma_kid_cells_sub(seps: Seq<Seq<u8>>, kids: Seq<Tree>, from: int, to: int)
    requires
        kids.len() == seps.len() + 1,
        0 <= from <= to <= seps.len(),
    ensures
        kid_cells(seps.subrange(from, to), kids.subrange(from, to + 1)) == kid_cells(
            seps,
            kids,
        ).subrange(from, to),
        kids.subrange(from, to + 1)[0] == kids[from],
{
    assert(kid_cells(seps.subrange(from, to), kids.subrange(from, to + 1)) =~= kid_cells(
        seps,
        kids,
    ).subrange(from, to));
}

/// Looking in the right half of a branch finds what the whole has.
proof fn lemma_kids_cut(page: PageId, l: PageId, r: PageId, seps: Seq<Seq<u8>>, kids: Seq<Tree>, mid: int, k: Seq<u8>)
    requires
        sorted(seps),
        kids.len() == seps.len() + 1,
        0 <= mid < seps.len(),
    ensures
        Tree::Branch(page, seps, kids).find(k) == (if lex_lt(k, seps[mid]) {
            Tree::Branch(l, seps.subrange(0, mid), kids.subrange(0, mid + 1)).find(k)
        } else {
            Tree::Branch(
                r,
                seps.subrange(mid + 1, seps.len() as int),
                kids.subrange(mid + 1, kids.len() as int),
            ).find(k)
        }),
{
    let whole = Tree::Branch(page, seps, kids);
    let a = seps.subrange(0, mid);
    let b = seps.subrange(mid + 1, seps.len() as int);
    let left = Tree::Branch(l, a, kids.subrange(0, mid + 1));
    let right = Tree::Branch(r, b, kids.subrange(mid + 1, kids.len() as int));
    lemma_route(seps, k);
    let n = route(seps, k);
    lemma_sorted_seps_sub(seps, 0, mid);
    lemma_sorted_seps_sub(seps, mid + 1, seps.len() as int);
    crate::tree::lemma_lex_facts2(seps[mid], k);
    assert(whole.find(k) == kids[n].find(k));
    if lex_lt(k, seps[mid]) {
        assert(n <= mid);
        assert(n > 0 ==> a[n - 1] == seps[n - 1]);
        assert(n < mid ==> a[n] == seps[n]);
        lemma_route_is(a, k, n);
        assert(left.find(k) == kids.subrange(0, mid + 1)[n].find(k));
    } else {
        assert(n > mid);
        let m = n - (mid + 1);
        assert(m > 0 ==> b[m - 1] == seps[n - 1]);
        assert(m < b.len() ==> b[m] == seps[n]);
        lemma_route_is(b, k, m);
        assert(right.find(k) == kids.subrange(mid + 1, kids.len() as int)[m].find(k));
    }
}

/// Put an edited branch back on pages, splitting it when it outgrew one.
#[verifier::rlimit(40)]
fn finish_branch<'p, S: Storage>(
    batch: &mut WriteBatch<'p, S>,
    old_page: PageId,
    first_child: PageId,
    entries: Vec<(Vec<u8>, PageId)>,
    Ghost(seps): Ghost<Seq<Seq<u8>>>,
    Ghost(kids): Ghost<Seq<Tree>>,
    Ghost(lo): Ghost<Option<Seq<u8>>>,
    Ghost(hi): Ghost<Option<Seq<u8>>>,
) -> (r: Result<(Insert, Ghost<(Tree, Tree)>)>)
    requires
        old(batch).wf(),
        crate::node::branch_len(branch_view(entries@)) <= NODE_BOUND - 24,
    ensures
        final(batch).next() <= old(batch).next() + 2,
        extends(*old(batch), *final(batch)),
        *final(final(batch).pager) == *final(old(batch).pager),
        branch_ready(*old(batch), old_page, seps, kids, lo, hi) && first_child == kids[0].root()
            && branch_view(entries@) == kid_cells(seps, kids) && crate::node::branch_len(
            kid_cells(seps, kids),
        ) <= old(batch).size() - 24 + 11 + max_key(old(batch).size()) ==> match r {
            Ok((ins, g)) => only_page(*old(batch), *final(batch), old_page) && insert_done(
                *old(batch),
                *final(batch),
                Tree::Branch(old_page, seps, kids),
                old_page,
                ins,
                g@.0,
                g@.1,
                lo,
                hi,
            ),
            Err(_) => final(batch).next() >= crate::page::MAX_PAGES,
        },
{
    let ghost b0 = *batch;
    let ps: u32 = batch.page_size();
    let ghost whole = Tree::Branch(old_page, seps, kids);
    let ghost cells = branch_view(entries@);
    let ghost good = branch_ready(b0, old_page, seps, kids, lo, hi) && first_child
        == kids[0].root() && cells == kid_cells(seps, kids) && crate::node::branch_len(
        kid_cells(seps, kids),
    ) <= ps - 24 + 11 + max_key(ps);
    proof {
        b0.lemma_facts();
        assert(cells.take(cells.len() as int) =~= cells);
        crate::node::lemma_branch_len_min(cells);
    }
    let n: usize = entries.len();
    let size: usize = branch_size(&entries, n);
    if size <= ps as usize - 24 || n < 3 {
        let node = Node::Branch { first_child, entries };
        let id: PageId = match write_node(batch, Some(old_page), &node) {
            Ok(id) => id,
            Err(x) => {
                proof {
                    if good {
                        lemma_short_branch(seps, kids, ps);
                    }
                }
                return Err(x);
            },
        };
        let ghost u = Tree::Branch(id, seps, kids);
        proof {
            if good {
                let nsep = seps.len() as int;
                lemma_branch_node(seps, kids);
                lemma_written_node(NodeV::Branch(first_child, cells), ps);
                assert(seps.subrange(0, nsep) =~= seps);
                assert(kids.subrange(0, nsep + 1) =~= kids);
                assert(id == old_page || fresh(b0, *batch, id));
                lemma_one_written(b0, *batch, old_page, id);
                lemma_branch_part(b0, *batch, old_page, id, seps, kids, 0, nsep, lo, hi);
                assert forall|x: PageId| #[trigger] u.has(x) implies whole.has(x) || fresh(
                    b0,
                    *batch,
                    x,
                ) by {
                    lemma_branch_has_sub(old_page, id, seps, kids, seps, 0, nsep + 1, x);
                }
                assert forall|k: Seq<u8>| #[trigger] u.find(k) == whole.find(k) by {}
            }
        }
        return Ok((Insert::Done(id), Ghost((u, u))));
    }
    let mid: usize = branch_split(&entries, ps);
    let ghost v = entries@;
    let mut left_entries: Vec<(Vec<u8>, PageId)> = entries;
    let mut right_entries: Vec<(Vec<u8>, PageId)> = left_entries.split_off(mid);
    let (sep, right_first) = right_entries.remove(0);
    proof {
        lemma_branch_len_cut(cells, mid as int);
        lemma_branch_len_cut(cells, mid + 1);
        assert(branch_view(left_entries@) =~= cells.take(mid as int));
        assert(branch_view(right_entries@) =~= cells.skip(mid + 1));
        assert(cells[mid as int] == (sep@, right_first));
        if good {
            lemma_kid_cells_sub(seps, kids, 0, mid as int);
            lemma_kid_cells_sub(seps, kids, mid + 1, seps.len() as int);
            assert(cells.take(mid as int) =~= cells.subrange(0, mid as int));
            assert(cells.skip(mid + 1) =~= cells.subrange(mid + 1, cells.len() as int));
            assert forall|i: int| 0 <= i < cells.len() implies crate::node::branch_cell_len(
                #[trigger] cells[i],
            ) <= 11 + max_key(ps) by {
                assert(cells[i].0 == seps[i]);
            }
        }
    }
    let left: PageId = match write_node(
        batch,
        Some(old_page),
        &Node::Branch { first_child, entries: left_entries },
    ) {
        Ok(id) => id,
        Err(x) => {
            return Err(x);
        },
    };
    let ghost b1 = *batch;
    let right: PageId = match write_node(
        batch,
        None,
        &Node::Branch { first_child: right_first, entries: right_entries },
    ) {
        Ok(id) => id,
        Err(x) => {
            proof {
                lemma_extends_trans(b0, b1, *batch);
            }
            return Err(x);
        },
    };
    let ghost u = Tree::Branch(left, seps.subrange(0, mid as int), kids.subrange(0, mid + 1));
    let ghost w = Tree::Branch(
        right,
        seps.subrange(mid + 1, seps.len() as int),
        kids.subrange(mid + 1, kids.len() as int),
    );
    proof {
        lemma_extends_trans(b0, b1, *batch);
        if good {
            assert(kid_cells(seps, kids)[mid as int] == (seps[mid as int], kids[mid + 1].root()));
            lemma_branch_split_done(
                b0,
                b1,
                *batch,
                old_page,
                seps,
                kids,
                mid as int,
                left,
                right,
                lo,
                hi,
                sep,
            );
        }
    }
    Ok((Insert::Split(left, sep, right), Ghost((u, w))))
}

proof fn lemma_one_written<'p, S: Storage>(
    a: WriteBatch<'p, S>,
    b: WriteBatch<'p, S>,
    page: PageId,
    id: PageId,
)
    requires
        if a.own(page) {
            id == page
        } else {
            fresh(a, b, id)
        },
        forall|x: PageId|
            x != id && a.pages().contains_key(x) ==> #[trigger] b.pages().contains_key(x) && b.pages()[x]
                == a.pages()[x],
    ensures
        only_page(a, b, page),
{
    assert forall|x: PageId| #[trigger]
        a.pages().contains_key(x) && !(x == page && a.own(x)) && !fresh(a, b, x) implies
        b.pages().contains_key(x) && b.pages()[x] == a.pages()[x] by {
        assert(x != id);
        assert(b.pages().contains_key(x));
    }
}

proof fn lemma_short_branch(seps: Seq<Seq<u8>>, kids: Seq<Tree>, ps: u32)
    requires
        page_size_ok(ps),
        kids.len() == seps.len() + 1,
        forall|i: int| 0 <= i < seps.len() ==> (#[trigger] seps[i]).len() <= max_key(ps),
        crate::node::branch_len(kid_cells(seps, kids)) <= ps - 24 || seps.len() < 3,
    ensures
        24 + crate::node::branch_len(kid_cells(seps, kids)) <= ps,
{
    let c = kid_cells(seps, kids);
    reveal_with_fuel(crate::node::branch_len, 4);
    if seps.len() < 3 && seps.len() > 0 {
        assert(c[0].0.len() <= max_key(ps)) by {
            assert(c[0].0 == seps[0]);
        }
        if seps.len() == 2 {
            assert(c[1].0 == seps[1]);
            assert(c.skip(1)[0] == c[1]);
            assert(c.skip(1).skip(1) =~= Seq::empty());
        } else {
            assert(c.skip(1) =~= Seq::empty());
        }
    }
}

#[verifier::rlimit(60)]
proof fn lemma_branch_split_done<'p, S: Storage>(
    b0: WriteBatch<'p, S>,
    b1: WriteBatch<'p, S>,
    b2: WriteBatch<'p, S>,
    page: PageId,
    seps: Seq<Seq<u8>>,
    kids: Seq<Tree>,
    mid: int,
    left: PageId,
    right: PageId,
    lo: Option<Seq<u8>>,
    hi: Option<Seq<u8>>,
    sep: Vec<u8>,
)
    requires
        b0.wf(),
        extends(b0, b1),
        extends(b1, b2),
        extends(b0, b2),
        branch_ready(b0, page, seps, kids, lo, hi),
        0 < mid < seps.len(),
        sep@ == seps[mid],
        if b0.own(page) {
            left == page
        } else {
            fresh(b0, b1, left)
        },
        fresh(b1, b2, right),
        left >= 2,
        right >= 2,
        forall|x: PageId| #[trigger] b1.own(x) == (b0.own(x) || x == left),
        forall|x: PageId| #[trigger] b2.own(x) == (b1.own(x) || x == right),
        ({
            let u = Tree::Branch(left, seps.subrange(0, mid), kids.subrange(0, mid + 1));
            let w = Tree::Branch(
                right,
                seps.subrange(mid + 1, seps.len() as int),
                kids.subrange(mid + 1, kids.len() as int),
            );
            &&& node_len(u.node()) <= b0.size()
            &&& node_len(w.node()) <= b0.size()
            &&& b1.pages() == b0.pages().insert(
                left,
                crate::node::node_bytes(u.node(), b0.size() as nat),
            )
            &&& b2.pages() == b1.pages().insert(
                right,
                crate::node::node_bytes(w.node(), b0.size() as nat),
            )
        }),
    ensures
        only_page(b0, b2, page),
        insert_done(
            b0,
            b2,
            Tree::Branch(page, seps, kids),
            page,
            Insert::Split(left, sep, right),
            Tree::Branch(left, seps.subrange(0, mid), kids.subrange(0, mid + 1)),
            Tree::Branch(
                right,
                seps.subrange(mid + 1, seps.len() as int),
                kids.subrange(mid + 1, kids.len() as int),
            ),
            lo,
            hi,
        ),
{
    let ps = b0.size();
    let s = sep@;
    let n = seps.len() as int;
    let sl = seps.subrange(0, mid);
    let kl = kids.subrange(0, mid + 1);
    let sr = seps.subrange(mid + 1, n);
    let kr = kids.subrange(mid + 1, n + 1);
    let u = Tree::Branch(left, sl, kl);
    let w = Tree::Branch(right, sr, kr);
    let whole = Tree::Branch(page, seps, kids);
    b0.lemma_facts();
    lemma_sorted_seps_sub(seps, 0, mid);
    lemma_sorted_seps_sub(seps, mid + 1, n);
    lemma_branch_node(sl, kl);
    lemma_branch_node(sr, kr);
    lemma_written_node(u.node(), ps);
    lemma_written_node(w.node(), ps);
    assert(b1.own(left));
    assert(left != right);
    assert(fresh(b0, b2, right)) by {
        if b0.own(right) {
            assert(b1.own(right));
        }
    }
    assert(left == page || fresh(b0, b2, left)) by {
        assert(b2.own(left));
    }
    assert forall|x: PageId| #[trigger]
        b0.pages().contains_key(x) && !(x == page && b0.own(x)) && !fresh(b0, b2, x) implies
        b2.pages().contains_key(x) && b2.pages()[x] == b0.pages()[x] by {
        assert(x != right);
        assert(x != left);
    }
    lemma_branch_part(b0, b2, page, left, seps, kids, 0, mid, lo, hi);
    lemma_branch_part(b0, b2, page, right, seps, kids, mid + 1, n, lo, hi);
    assert forall|x: PageId| #[trigger] u.has(x) implies whole.has(x) || fresh(b0, b2, x) by {
        lemma_branch_has_sub(page, left, seps, kids, sl, 0, mid + 1, x);
    }
    assert forall|x: PageId| #[trigger] w.has(x) implies whole.has(x) || fresh(b0, b2, x) by {
        lemma_branch_has_sub(page, right, seps, kids, sr, mid + 1, n + 1, x);
    }
    assert forall|x: PageId| !(#[trigger] u.has(x) && #[trigger] w.has(x)) by {
        if u.has(x) && w.has(x) {
            lemma_branch_has_sub(page, left, seps, kids, sl, 0, mid + 1, x);
            lemma_branch_has_sub(page, right, seps, kids, sr, mid + 1, n + 1, x);
            if x == left {
                let j = choose|j: int| mid + 1 <= j < n + 1 && (#[trigger] kids[j]).has(x);
                assert(unspared(b0, kids[j]));
                assert(!b0.spare(x));
            } else {
                let i = choose|i: int| 0 <= i < mid + 1 && (#[trigger] kids[i]).has(x);
                assert(unspared(b0, kids[i]));
                assert(!b0.spare(x));
                let j = choose|j: int| mid + 1 <= j < n + 1 && (#[trigger] kids[j]).has(x);
                assert(crate::tree::disjoint(kids[i], kids[j]));
            }
        }
    }
    assert(crate::tree::in_range(seps[mid], lo, hi));
    if let Some(l) = lo {
        assert(crate::tree::in_range(seps[0], lo, hi));
        assert(lex_lt(seps[0], seps[mid]));
        if l != seps[0] {
            lemma_lex_trans(l, seps[0], s);
        }
    }
    assert forall|k: Seq<u8>| #[trigger] whole.find(k) == (if lex_lt(k, s) {
        u.find(k)
    } else {
        w.find(k)
    }) by {
        lemma_kids_cut(page, left, right, seps, kids, mid, k);
    }
}

// ---------------------------------------------------------------------
// Putting a key
// ---------------------------------------------------------------------

/// Entries with `k` set to `v`: over an equal key, or where it belongs.
pub open spec fn entries_put(e: Seq<Entry>, found: bool, i: int, k: Seq<u8>, v: Stored) -> Seq<Entry> {
    if found {
        e.update(i, (k, v))
    } else {
        e.insert(i, (k, v))
    }
}

#[verifier::rlimit(40)]
proof fn lemma_entries_put(
    page: PageId,
    e: Seq<Entry>,
    found: bool,
    at: int,
    k: Seq<u8>,
    v: Stored,
    ps: u32,
    lo: Option<Seq<u8>>,
    hi: Option<Seq<u8>>,
)
    requires
        crate::tree::entries_ok(page, e, ps, lo, hi),
        0 <= at <= e.len(),
        found ==> at < e.len() && e[at].0 == k,
        forall|j: int| 0 <= j < at ==> lex_lt((#[trigger] e[j]).0, k),
        forall|j: int| at <= j < e.len() && !(found && j == at) ==> lex_lt(k, (#[trigger] e[j]).0),
        0 < k.len() <= max_key(ps),
        crate::tree::in_range(k, lo, hi),
        v.ok(ps),
        !v.has(page),
        forall|j: int| 0 <= j < e.len() ==> crate::tree::values_disjoint(v, (#[trigger] e[j]).1),
    ensures
        crate::tree::entries_ok(page, entries_put(e, found, at, k, v), ps, lo, hi),
{
    let f = entries_put(e, found, at, k, v);
    let ks = entry_keys(f);
    let es = entry_keys(e);
    assert forall|j: int| 0 <= j < f.len() implies #[trigger] f[j] == (if j == at {
        (k, v)
    } else if j < at || found {
        e[j]
    } else {
        e[j - 1]
    }) by {}
    assert forall|i: int, j: int| 0 <= i < j < ks.len() implies lex_lt(
        #[trigger] ks[i],
        #[trigger] ks[j],
    ) by {
        assert(f[i].0 == ks[i] && f[j].0 == ks[j]);
        let a = if i < at || found {
            i
        } else {
            i - 1
        };
        let b = if j < at || found {
            j
        } else {
            j - 1
        };
        if i != at && j != at {
            assert(lex_lt(es[a], es[b]));
        }
    }
    assert forall|i: int, j: int| 0 <= i < j < f.len() implies crate::tree::values_disjoint(
        (#[trigger] f[i]).1,
        (#[trigger] f[j]).1,
    ) by {
        let a = if i < at || found {
            i
        } else {
            i - 1
        };
        let b = if j < at || found {
            j
        } else {
            j - 1
        };
        if i != at && j != at {
            assert(f[i] == e[a] && f[j] == e[b]);
        } else if i == at {
            assert(f[j] == e[b]);
            assert(crate::tree::values_disjoint(v, e[b].1));
        } else {
            assert(f[i] == e[a]);
            assert(crate::tree::values_disjoint(v, e[a].1));
        }
    }
}

proof fn lemma_entries_put_find(
    e: Seq<Entry>,
    found: bool,
    at: int,
    k: Seq<u8>,
    v: Stored,
    q: Seq<u8>,
)
    requires
        sorted(entry_keys(e)),
        sorted(entry_keys(entries_put(e, found, at, k, v))),
        0 <= at <= e.len(),
        found ==> at < e.len() && e[at].0 == k,
        !found ==> forall|j: int| 0 <= j < e.len() ==> (#[trigger] e[j]).0 != k,
    ensures
        entries_find(entries_put(e, found, at, k, v), q) == (if q == k {
            Some(v.bytes())
        } else {
            entries_find(e, q)
        }),
{
    let f = entries_put(e, found, at, k, v);
    assert(f[at] == (k, v));
    if q == k {
        lemma_entries_find(f, q, at);
    } else if exists|i: int| 0 <= i < e.len() && (#[trigger] e[i]).0 == q {
        let i = crate::tree::entry_index(e, q);
        assert(e[i].0 == q);
        lemma_entries_find(e, q, i);
        let j = if i < at || found {
            i
        } else {
            i + 1
        };
        assert(f[j] == e[i]);
        lemma_entries_find(f, q, j);
    } else {
        assert forall|i: int| 0 <= i < f.len() implies (#[trigger] f[i]).0 != q by {
            if i != at {
                let j = if i < at || found {
                    i
                } else {
                    i - 1
                };
                assert(f[i] == e[j]);
                assert(e[j].0 != q);
            }
        }
    }
}

/// Everything an insert needs of the tree and the value.
pub open spec fn put_ready<'p, S: Storage>(
    b: WriteBatch<'p, S>,
    t: Tree,
    v: Stored,
    lo: Option<Seq<u8>>,
    hi: Option<Seq<u8>>,
) -> bool {
    &&& b.free_ok()
    &&& t.holds(b.pages(), b.size())
    &&& t.ok(b.size(), lo, hi)
    &&& unspared(b, t)
    &&& v.holds(b.pages(), b.size())
    &&& v.ok(b.size())
    &&& value_unspared(b, v)
    &&& forall|x: PageId| #[trigger] v.has(x) ==> !t.has(x)
}

/// What an insert owes its caller.
pub open spec fn put_done<'p, S: Storage>(
    a: WriteBatch<'p, S>,
    b: WriteBatch<'p, S>,
    t: Tree,
    v: Stored,
    key: Seq<u8>,
    r: Insert,
    u: Tree,
    w: Tree,
    lo: Option<Seq<u8>>,
    hi: Option<Seq<u8>>,
) -> bool {
    let ps = a.size();
    &&& only_tree(a, b, t)
    &&& u.holds(b.pages(), ps)
    &&& forall|x: PageId| #[trigger] u.has(x) ==> t.has(x) || v.has(x) || fresh(a, b, x)
    &&& match r {
        Insert::Done(id) => {
            &&& u.root() == id
            &&& u.ok(ps, lo, hi)
            &&& forall|k: Seq<u8>| #[trigger]
                u.find(k) == (if k == key {
                    Some(v.bytes())
                } else {
                    t.find(k)
                })
        },
        Insert::Split(l, sep, right) => {
            &&& u.root() == l
            &&& w.root() == right
            &&& u.ok(ps, lo, Some(sep@))
            &&& w.ok(ps, Some(sep@), hi)
            &&& w.holds(b.pages(), ps)
            &&& crate::tree::disjoint(u, w)
            &&& sep@.len() <= max_key(ps)
            &&& crate::tree::in_range(sep@, lo, hi)
            &&& (lo matches Some(l) ==> lex_lt(l, sep@))
            &&& forall|x: PageId| #[trigger] w.has(x) ==> t.has(x) || v.has(x) || fresh(a, b, x)
            &&& forall|k: Seq<u8>|
                (if lex_lt(k, sep@) {
                    #[trigger] u.find(k)
                } else {
                    w.find(k)
                }) == (if k == key {
                    Some(v.bytes())
                } else {
                    t.find(k)
                })
        },
    }
}

proof fn lemma_leaf_put_len(v: Seq<LeafCell>, found: bool, at: int, c: LeafCell)
    requires
        0 <= at <= v.len(),
        found ==> at < v.len(),
    ensures
        crate::node::leaf_len(if found {
            v.update(at, c)
        } else {
            v.insert(at, c)
        }) <= crate::node::leaf_len(v) + crate::node::leaf_cell_len(c),
{
    let w = if found {
        v.update(at, c)
    } else {
        v.insert(at, c)
    };
    let rest = if found {
        v.skip(at + 1)
    } else {
        v.skip(at)
    };
    assert(w =~= v.take(at) + (seq![c] + rest));
    crate::node::lemma_leaf_len_add(v.take(at), seq![c] + rest);
    crate::node::lemma_leaf_len_add(seq![c], rest);
    lemma_leaf_len_one(c);
    lemma_leaf_len_cut(v, at);
    if found {
        lemma_leaf_len_cut(v, at + 1);
        lemma_leaf_len_take(v, at);
    }
}

/// Set `key` in a decoded leaf and put the leaf back.
#[verifier::rlimit(100)]
fn insert_leaf<'p, S: Storage>(
    batch: &mut WriteBatch<'p, S>,
    page: PageId,
    entries: Vec<(Vec<u8>, ValueRef)>,
    key: &[u8],
    value: ValueRef,
    Ghost(t): Ghost<Tree>,
    Ghost(st): Ghost<Stored>,
    Ghost(lo): Ghost<Option<Seq<u8>>>,
    Ghost(hi): Ghost<Option<Seq<u8>>>,
) -> (r: Result<(Insert, Ghost<(Tree, Tree)>)>)
    requires
        old(batch).wf(),
        0 < key@.len() <= max_key(old(batch).size()),
        sorted(leaf_keys(leaf_view(entries@))),
        16 + crate::node::leaf_len(leaf_view(entries@)) <= old(batch).size(),
        value@ matches VRef::Inline(v) ==> v.len() <= inline_limit(old(batch).size()),
    ensures
        final(batch).next() <= old(batch).next() + 2,
        extends(*old(batch), *final(batch)),
        *final(final(batch).pager) == *final(old(batch).pager),
        put_ready(*old(batch), t, st, lo, hi) && t.root() == page && t.node() == NodeV::Leaf(
            leaf_view(entries@),
        ) && crate::tree::in_range(key@, lo, hi) && st.vref() == value@ ==> match r {
            Ok((ins, g)) => put_done(
                *old(batch),
                *final(batch),
                t,
                st,
                key@,
                ins,
                g@.0,
                g@.1,
                lo,
                hi,
            ),
            Err(_) => final(batch).next() >= crate::page::MAX_PAGES,
        },
{
    let ghost b0 = *batch;
    let ghost ps = batch.size();
    let ghost v0 = entries@;
    let ghost good = put_ready(b0, t, st, lo, hi) && t.root() == page && t.node() == NodeV::Leaf(
        leaf_view(entries@),
    ) && crate::tree::in_range(key@, lo, hi) && st.vref() == value@;
    let ghost e: Seq<Entry> = match t {
        Tree::Leaf(id, e) => e,
        Tree::Branch(id, seps, kids) => Seq::empty(),
    };
    let (found, i) = leaf_position(&entries, key);
    let mut entries: Vec<(Vec<u8>, ValueRef)> = entries;
    let k: Vec<u8> = copy_vec(key);
    let ghost c: LeafCell = (key@, value@);
    if found {
        entries[i] = (k, value);
    } else {
        entries.insert(i, (k, value));
    }
    let ghost f = entries_put(e, found, i as int, key@, st);
    proof {
        b0.lemma_facts();
        let lv = leaf_view(v0);
        assert(leaf_view(entries@) =~= (if found {
            lv.update(i as int, c)
        } else {
            lv.insert(i as int, c)
        }));
        lemma_leaf_put_len(lv, found, i as int, c);
        if good {
            lemma_leaf_sorted_view(v0, e);
            assert forall|j: int| 0 <= j < e.len() implies (#[trigger] e[j]).0 == v0[j].0@ by {
                assert(entry_keys(e)[j] == leaf_keys(leaf_view(v0))[j]);
            }
            assert forall|j: int| 0 <= j < e.len() implies crate::tree::values_disjoint(
                st,
                (#[trigger] e[j]).1,
            ) by {
                assert forall|x: PageId| !(#[trigger] st.has(x) && #[trigger] e[j].1.has(x)) by {
                    if e[j].1.has(x) {
                        crate::tree::lemma_leaf_has(page, e, j, x);
                    }
                }
            }
            assert(t.has(page));
            lemma_entries_put(page, e, found, i as int, key@, st, ps, lo, hi);
            if !found {
                assert forall|j: int| 0 <= j < e.len() implies (#[trigger] e[j]).0 != key@ by {
                    lemma_lex_irrefl(key@);
                    assert(v0[j].0@ == e[j].0);
                }
            }
            assert(leaf_ready(b0, page, f, lo, hi)) by {
                assert forall|j: int| 0 <= j < f.len() implies (#[trigger] f[j]).1.holds(
                    b0.pages(),
                    ps,
                ) && value_unspared(b0, f[j].1) by {
                    if j != i {
                        let n = if j < i || found {
                            j
                        } else {
                            j - 1
                        };
                        assert(f[j] == e[n]);
                        assert(e[n].1.holds(b0.pages(), ps));
                        assert forall|x: PageId| #[trigger] e[n].1.has(x) implies !b0.spare(x) by {
                            crate::tree::lemma_leaf_has(page, e, n, x);
                        }
                    }
                }
            }
            assert(leaf_view(entries@) =~= entry_cells(f)) by {
                assert forall|j: int| 0 <= j < f.len() implies leaf_view(entries@)[j]
                    == entry_cells(f)[j] by {
                    if j != i {
                        let n = if j < i || found {
                            j
                        } else {
                            j - 1
                        };
                        assert(entry_cells(e)[n] == lv[n]);
                        assert(f[j] == e[n]);
                    }
                }
            }
            lemma_cell_max((key@, st), ps);
        }
    }
    match finish_leaf(batch, page, entries, Ghost(f), Ghost(lo), Ghost(hi)) {
        Ok((ins, g)) => {
            proof {
                if good {
                    lemma_leaf_insert_done(
                        b0,
                        *batch,
                        t,
                        e,
                        st,
                        key@,
                        page,
                        found,
                        i as int,
                        ins,
                        g@.0,
                        g@.1,
                        lo,
                        hi,
                    );
                }
            }
            Ok((ins, g))
        },
        Err(x) => Err(x),
    }
}

#[verifier::rlimit(40)]
proof fn lemma_leaf_insert_done<'p, S: Storage>(
    a: WriteBatch<'p, S>,
    b: WriteBatch<'p, S>,
    t: Tree,
    e: Seq<Entry>,
    v: Stored,
    key: Seq<u8>,
    page: PageId,
    found: bool,
    i: int,
    r: Insert,
    u: Tree,
    w: Tree,
    lo: Option<Seq<u8>>,
    hi: Option<Seq<u8>>,
)
    requires
        t == Tree::Leaf(page, e),
        0 <= i <= e.len(),
        found ==> i < e.len() && e[i].0 == key,
        !found ==> forall|j: int| 0 <= j < e.len() ==> (#[trigger] e[j]).0 != key,
        sorted(entry_keys(e)),
        sorted(entry_keys(entries_put(e, found, i, key, v))),
        only_page(a, b, page),
        insert_done(a, b, Tree::Leaf(page, entries_put(e, found, i, key, v)), page, r, u, w, lo, hi),
    ensures
        put_done(a, b, t, v, key, r, u, w, lo, hi),
{
    let f = entries_put(e, found, i, key, v);
    let whole = Tree::Leaf(page, f);
    assert(t.has(page));
    assert forall|x: PageId| #[trigger] whole.has(x) implies t.has(x) || v.has(x) by {
        if x != page {
            let j = choose|j: int| 0 <= j < f.len() && (#[trigger] f[j]).1.has(x);
            if j != i {
                let n = if j < i || found {
                    j
                } else {
                    j - 1
                };
                assert(f[j] == e[n]);
                crate::tree::lemma_leaf_has(page, e, n, x);
            }
        }
    }
    assert forall|x: PageId| #[trigger] u.has(x) implies t.has(x) || v.has(x) || fresh(a, b, x) by {
        assert(whole.has(x) || fresh(a, b, x));
    }
    assert forall|k: Seq<u8>| #[trigger] whole.find(k) == (if k == key {
        Some(v.bytes())
    } else {
        t.find(k)
    }) by {
        lemma_entries_put_find(e, found, i, key, v, k);
    }
    match r {
        Insert::Done(id) => {
            assert forall|k: Seq<u8>| #[trigger] u.find(k) == (if k == key {
                Some(v.bytes())
            } else {
                t.find(k)
            }) by {
                assert(u.find(k) == whole.find(k));
            }
        },
        Insert::Split(l, sep, right) => {
            assert forall|x: PageId| #[trigger] w.has(x) implies t.has(x) || v.has(x) || fresh(
                a,
                b,
                x,
            ) by {
                assert(whole.has(x) || fresh(a, b, x));
            }
            assert forall|k: Seq<u8>|
                (if lex_lt(k, sep@) {
                    #[trigger] u.find(k)
                } else {
                    w.find(k)
                }) == (if k == key {
                    Some(v.bytes())
                } else {
                    t.find(k)
                }) by {
                assert(whole.find(k) == whole.find(k));
            }
        },
    }
}

/// What a child edit leaves of its parent's other children.
#[verifier::rlimit(60)]
proof fn lemma_siblings<'p, S: Storage>(
    a: WriteBatch<'p, S>,
    b: WriteBatch<'p, S>,
    page: PageId,
    seps: Seq<Seq<u8>>,
    kids: Seq<Tree>,
    idx: int,
    v: Stored,
    c: Tree,
    lo: Option<Seq<u8>>,
    hi: Option<Seq<u8>>,
)
    requires
        a.wf(),
        extends(a, b),
        put_ready(a, Tree::Branch(page, seps, kids), v, lo, hi),
        0 <= idx < kids.len(),
        only_tree(a, b, kids[idx]),
        forall|x: PageId| #[trigger] c.has(x) ==> kids[idx].has(x) || v.has(x) || fresh(a, b, x),
    ensures
        forall|j: int|
            0 <= j < kids.len() && j != idx ==> (#[trigger] kids[j]).holds(b.pages(), a.size())
                && unspared(b, kids[j]) && !kids[j].has(page) && crate::tree::disjoint(c, kids[j])
                && crate::tree::disjoint(kids[j], c),
        unspared(b, c),
        !c.has(page),
        !b.spare(page),
        b.own(page) == a.own(page),
{
    let t = Tree::Branch(page, seps, kids);
    let ps = a.size();
    a.lemma_facts();
    assert(t.has(page));
    assert(!a.spare(page));
    assert(!fresh(a, b, page));
    assert(!kids[idx].has(page)) by {
        assert(kids[idx].ok(ps, kid_lo(seps, lo, idx), kid_hi(seps, hi, idx)));
    }
    assert forall|j: int, x: PageId| 0 <= j < kids.len() && #[trigger] kids[j].has(x) implies t.has(x)
        && !a.spare(x) && !v.has(x) && !fresh(a, b, x) by {
        crate::tree::lemma_branch_has(page, seps, kids, j, x);
        assert(!a.spare(x));
        if v.has(x) {
            assert(!t.has(x));
        }
        assert(!fresh(a, b, x));
    }
    assert(!c.has(page)) by {
        if c.has(page) {
            assert(kids[idx].has(page) || v.has(page) || fresh(a, b, page));
        }
    }
    assert forall|x: PageId| #[trigger] c.has(x) implies !b.spare(x) by {
        if kids[idx].has(x) {
            assert(!a.spare(x));
        } else if v.has(x) {
            assert(!a.spare(x));
        } else {
            assert(fresh(a, b, x));
        }
    }
    assert forall|j: int| 0 <= j < kids.len() && j != idx implies (#[trigger] kids[j]).holds(
        b.pages(),
        ps,
    ) && unspared(b, kids[j]) && !kids[j].has(page) && crate::tree::disjoint(c, kids[j])
        && crate::tree::disjoint(kids[j], c) by {
        let d = kids[j];
        assert(d.ok(ps, kid_lo(seps, lo, j), kid_hi(seps, hi, j)));
        assert(d.holds(a.pages(), ps));
        if j < idx {
            assert(crate::tree::disjoint(kids[j], kids[idx]));
        } else {
            assert(crate::tree::disjoint(kids[idx], kids[j]));
        }
        assert forall|x: PageId| !(#[trigger] c.has(x) && #[trigger] d.has(x)) by {
            if c.has(x) && d.has(x) {
                assert(kids[j].has(x));
                assert(!fresh(a, b, x) && !v.has(x));
                assert(kids[idx].has(x));
            }
        }
        assert forall|x: PageId| #[trigger] d.has(x) && a.pages().contains_key(x) implies
            b.pages().contains_key(x) && crate::tree::same_page(a.pages()[x], b.pages()[x]) by {
            assert(kids[j].has(x));
            assert(!kids[idx].has(x));
        }
        crate::tree::lemma_frame(d, a.pages(), b.pages(), ps);
    }
}

/// One child replaced: the branch is ready to be written.
#[verifier::rlimit(60)]
proof fn lemma_child_replaced<'p, S: Storage>(
    a: WriteBatch<'p, S>,
    b: WriteBatch<'p, S>,
    page: PageId,
    seps: Seq<Seq<u8>>,
    kids: Seq<Tree>,
    idx: int,
    v: Stored,
    c: Tree,
    lo: Option<Seq<u8>>,
    hi: Option<Seq<u8>>,
)
    requires
        a.wf(),
        extends(a, b),
        put_ready(a, Tree::Branch(page, seps, kids), v, lo, hi),
        0 <= idx < kids.len(),
        only_tree(a, b, kids[idx]),
        forall|x: PageId| #[trigger] c.has(x) ==> kids[idx].has(x) || v.has(x) || fresh(a, b, x),
        c.ok(a.size(), kid_lo(seps, lo, idx), kid_hi(seps, hi, idx)),
        c.holds(b.pages(), a.size()),
    ensures
        branch_ready(b, page, seps, kids.update(idx, c), lo, hi),
        crate::node::branch_len(kid_cells(seps, kids.update(idx, c))) <= a.size() - 24,
{
    let ps = a.size();
    let k = kids.update(idx, c);
    let t = Tree::Branch(page, seps, kids);
    lemma_siblings(a, b, page, seps, kids, idx, v, c, lo, hi);
    assert(node_len(t.node()) <= ps);
    crate::tree::lemma_branch_len_keys(kid_cells(seps, k), kid_cells(seps, kids));
    assert forall|i: int| 0 <= i < k.len() implies (#[trigger] k[i]).ok(
        ps,
        kid_lo(seps, lo, i),
        kid_hi(seps, hi, i),
    ) && !k[i].has(page) && k[i].holds(b.pages(), ps) && unspared(b, k[i]) by {
        if i != idx {
            assert(k[i] == kids[i]);
            assert(kids[i].ok(ps, kid_lo(seps, lo, i), kid_hi(seps, hi, i)));
        }
    }
    assert forall|i: int, j: int| 0 <= i < j < k.len() implies crate::tree::disjoint(
        #[trigger] k[i],
        #[trigger] k[j],
    ) by {
        if i != idx && j != idx {
            assert(k[i] == kids[i] && k[j] == kids[j]);
            assert(crate::tree::disjoint(kids[i], kids[j]));
        } else if i == idx {
            assert(k[j] == kids[j]);
            assert(crate::tree::disjoint(c, kids[j]));
        } else {
            assert(k[i] == kids[i]);
            assert(crate::tree::disjoint(kids[i], c));
        }
    }
}

/// The cells of a branch one of whose children was split in two.
proof fn lemma_split_cells(
    seps: Seq<Seq<u8>>,
    kids: Seq<Tree>,
    idx: int,
    c: Tree,
    d: Tree,
    s: Seq<u8>,
)
    requires
        kids.len() == seps.len() + 1,
        0 <= idx < kids.len(),
    ensures
        kid_cells(seps.insert(idx, s), kids.update(idx, c).insert(idx + 1, d)) == kid_cells(
            seps,
            kids.update(idx, c),
        ).insert(idx, (s, d.root())),
        crate::node::branch_len(
            kid_cells(seps.insert(idx, s), kids.update(idx, c).insert(idx + 1, d)),
        ) == crate::node::branch_len(kid_cells(seps, kids)) + 11 + s.len(),
{
    let z = seps.insert(idx, s);
    let k = kids.update(idx, c).insert(idx + 1, d);
    let base = kid_cells(seps, kids.update(idx, c));
    let cells = kid_cells(z, k);
    assert(cells =~= base.insert(idx, (s, d.root()))) by {
        assert forall|i: int| 0 <= i < cells.len() implies cells[i] == base.insert(
            idx,
            (s, d.root()),
        )[i] by {
            if i < idx {
                assert(z[i] == seps[i]);
                assert(k[i + 1] == kids.update(idx, c)[i + 1]);
            } else if i == idx {
                assert(k[i + 1] == d);
            } else {
                assert(z[i] == seps[i - 1]);
                assert(k[i + 1] == kids.update(idx, c)[i]);
            }
        }
    }
    crate::tree::lemma_branch_len_keys(base, kid_cells(seps, kids));
    assert(cells =~= base.take(idx) + (seq![(s, d.root())] + base.skip(idx)));
    crate::node::lemma_branch_len_add(base.take(idx), seq![(s, d.root())] + base.skip(idx));
    crate::node::lemma_branch_len_add(seq![(s, d.root())], base.skip(idx));
    lemma_branch_len_one((s, d.root()));
    lemma_branch_len_cut(base, idx);
}

/// What a branch finds once one of its children was split in two.
proof fn lemma_split_find(
    page: PageId,
    seps: Seq<Seq<u8>>,
    kids: Seq<Tree>,
    idx: int,
    c: Tree,
    d: Tree,
    s: Seq<u8>,
    q: Seq<u8>,
)
    requires
        sorted(seps),
        kids.len() == seps.len() + 1,
        0 <= idx < kids.len(),
        idx > 0 ==> lex_lt(seps[idx - 1], s),
        idx < seps.len() ==> lex_lt(s, seps[idx]),
    ensures
        Tree::Branch(page, seps.insert(idx, s), kids.update(idx, c).insert(idx + 1, d)).find(q)
            == (if route(seps, q) == idx {
            if lex_lt(q, s) {
                c.find(q)
            } else {
                d.find(q)
            }
        } else {
            kids[route(seps, q)].find(q)
        }),
{
    let z = seps.insert(idx, s);
    let k = kids.update(idx, c).insert(idx + 1, d);
    let whole = Tree::Branch(page, z, k);
    crate::tree::lemma_route_insert(seps, idx, s, q);
    lemma_route(seps, q);
    let r = route(z, q);
    assert(whole.find(q) == k[r].find(q));
}

/// One child split in two: the branch is ready to be written.
#[verifier::rlimit(80)]
proof fn lemma_child_split<'p, S: Storage>(
    a: WriteBatch<'p, S>,
    b: WriteBatch<'p, S>,
    page: PageId,
    seps: Seq<Seq<u8>>,
    kids: Seq<Tree>,
    idx: int,
    v: Stored,
    c: Tree,
    d: Tree,
    s: Seq<u8>,
    lo: Option<Seq<u8>>,
    hi: Option<Seq<u8>>,
)
    requires
        a.wf(),
        extends(a, b),
        put_ready(a, Tree::Branch(page, seps, kids), v, lo, hi),
        0 <= idx < kids.len(),
        only_tree(a, b, kids[idx]),
        forall|x: PageId| #[trigger] c.has(x) ==> kids[idx].has(x) || v.has(x) || fresh(a, b, x),
        forall|x: PageId| #[trigger] d.has(x) ==> kids[idx].has(x) || v.has(x) || fresh(a, b, x),
        c.ok(a.size(), kid_lo(seps, lo, idx), Some(s)),
        d.ok(a.size(), Some(s), kid_hi(seps, hi, idx)),
        c.holds(b.pages(), a.size()),
        d.holds(b.pages(), a.size()),
        crate::tree::disjoint(c, d),
        s.len() <= max_key(a.size()),
        crate::tree::in_range(s, kid_lo(seps, lo, idx), kid_hi(seps, hi, idx)),
        kid_lo(seps, lo, idx) matches Some(l) ==> lex_lt(l, s),
    ensures
        branch_ready(
            b,
            page,
            seps.insert(idx, s),
            kids.update(idx, c).insert(idx + 1, d),
            lo,
            hi,
        ),
        idx > 0 ==> lex_lt(seps[idx - 1], s),
        idx < seps.len() ==> lex_lt(s, seps[idx]),
{
    let ps = a.size();
    let z = seps.insert(idx, s);
    let k = kids.update(idx, c).insert(idx + 1, d);
    lemma_siblings(a, b, page, seps, kids, idx, v, c, lo, hi);
    lemma_siblings(a, b, page, seps, kids, idx, v, d, lo, hi);
    crate::tree::lemma_sorted_insert(seps, idx, s);
    lemma_seps_inserted(seps, idx, s, ps, lo, hi);
    assert forall|i: int| 0 <= i < k.len() implies #[trigger] k[i] == (if i < idx {
        kids[i]
    } else if i == idx {
        c
    } else if i == idx + 1 {
        d
    } else {
        kids[i - 1]
    }) by {}
    assert forall|i: int| 0 <= i < k.len() implies (#[trigger] k[i]).ok(
        ps,
        kid_lo(z, lo, i),
        kid_hi(z, hi, i),
    ) && !k[i].has(page) && k[i].holds(b.pages(), ps) && unspared(b, k[i]) by {
        if i < idx {
            assert(kids[i].ok(ps, kid_lo(seps, lo, i), kid_hi(seps, hi, i)));
            assert(kid_lo(z, lo, i) == kid_lo(seps, lo, i));
            assert(kid_hi(z, hi, i) == kid_hi(seps, hi, i));
        } else if i == idx {
            assert(kid_lo(z, lo, i) == kid_lo(seps, lo, i));
            assert(kid_hi(z, hi, i) == Some(s));
        } else if i == idx + 1 {
            assert(kid_lo(z, lo, i) == Some(s));
            assert(kid_hi(z, hi, i) == kid_hi(seps, hi, idx));
        } else {
            assert(kids[i - 1].ok(ps, kid_lo(seps, lo, i - 1), kid_hi(seps, hi, i - 1)));
            assert(kid_lo(z, lo, i) == kid_lo(seps, lo, i - 1));
            assert(kid_hi(z, hi, i) == kid_hi(seps, hi, i - 1));
        }
    }
    assert forall|i: int, j: int| 0 <= i < j < k.len() implies crate::tree::disjoint(
        #[trigger] k[i],
        #[trigger] k[j],
    ) by {
        let x = if i <= idx {
            i
        } else {
            i - 1
        };
        let y = if j <= idx {
            j
        } else {
            j - 1
        };
        if x == idx && y == idx {
        } else if x == idx {
            assert(k[j] == kids[y]);
            assert(crate::tree::disjoint(c, kids[y]) && crate::tree::disjoint(d, kids[y]));
        } else if y == idx {
            assert(k[i] == kids[x]);
            assert(crate::tree::disjoint(kids[x], c) && crate::tree::disjoint(kids[x], d));
        } else {
            assert(k[i] == kids[x] && k[j] == kids[y]);
            assert(crate::tree::disjoint(kids[x], kids[y]));
        }
    }
}

proof fn lemma_seps_inserted(
    seps: Seq<Seq<u8>>,
    idx: int,
    s: Seq<u8>,
    ps: u32,
    lo: Option<Seq<u8>>,
    hi: Option<Seq<u8>>,
)
    requires
        crate::tree::seps_ok(seps, ps, lo, hi),
        0 <= idx <= seps.len(),
        s.len() <= max_key(ps),
        crate::tree::in_range(s, kid_lo(seps, lo, idx), kid_hi(seps, hi, idx)),
        crate::tree::above(s, kid_lo(seps, lo, idx)),
    ensures
        crate::tree::seps_ok(seps.insert(idx, s), ps, lo, hi),
{
    let z = seps.insert(idx, s);
    crate::tree::lemma_sorted_insert(seps, idx, s);
    assert(crate::tree::in_range(s, lo, hi) && crate::tree::above(s, lo)) by {
        if idx > 0 && lo is Some {
            assert(crate::tree::in_range(seps[idx - 1], lo, hi));
            if lo->0 != seps[idx - 1] {
                lemma_lex_trans(lo->0, seps[idx - 1], s);
            }
        }
        if idx < seps.len() && hi is Some {
            assert(crate::tree::in_range(seps[idx], lo, hi));
            lemma_lex_trans(s, seps[idx], hi->0);
        }
    }
    assert forall|i: int| 0 <= i < z.len() implies (#[trigger] z[i]).len() <= max_key(ps)
        && crate::tree::in_range(z[i], lo, hi) && crate::tree::above(z[i], lo) by {
        if i < idx {
            assert(z[i] == seps[i]);
        } else if i > idx {
            assert(z[i] == seps[i - 1]);
        }
    }
}

/// Putting the parts of a branch insert together.
#[verifier::rlimit(60)]
proof fn lemma_branch_insert_done<'p, S: Storage>(
    a: WriteBatch<'p, S>,
    b: WriteBatch<'p, S>,
    c: WriteBatch<'p, S>,
    page: PageId,
    seps: Seq<Seq<u8>>,
    kids: Seq<Tree>,
    idx: int,
    v: Stored,
    key: Seq<u8>,
    whole: Tree,
    r: Insert,
    u: Tree,
    w: Tree,
    lo: Option<Seq<u8>>,
    hi: Option<Seq<u8>>,
)
    requires
        a.wf(),
        extends(a, b),
        extends(b, c),
        extends(a, c),
        put_ready(a, Tree::Branch(page, seps, kids), v, lo, hi),
        0 <= idx < kids.len(),
        only_tree(a, b, kids[idx]),
        b.own(page) == a.own(page),
        only_page(b, c, page),
        insert_done(b, c, whole, page, r, u, w, lo, hi),
        forall|x: PageId| #[trigger]
            whole.has(x) ==> Tree::Branch(page, seps, kids).has(x) || v.has(x) || fresh(a, b, x),
        forall|k: Seq<u8>| #[trigger]
            whole.find(k) == (if k == key {
                Some(v.bytes())
            } else {
                Tree::Branch(page, seps, kids).find(k)
            }),
    ensures
        put_done(a, c, Tree::Branch(page, seps, kids), v, key, r, u, w, lo, hi),
{
    let t = Tree::Branch(page, seps, kids);
    lemma_extends_trans(a, b, c);
    assert(t.has(page));
    assert(only_tree(a, c, t)) by {
        assert forall|x: PageId| #[trigger]
            a.pages().contains_key(x) && !(t.has(x) && a.own(x)) && !fresh(a, c, x) implies
            c.pages().contains_key(x) && c.pages()[x] == a.pages()[x] by {
            assert(!fresh(a, b, x) && !fresh(b, c, x));
            assert(!(kids[idx].has(x) && a.own(x))) by {
                if kids[idx].has(x) {
                    crate::tree::lemma_branch_has(page, seps, kids, idx, x);
                }
            }
            assert(b.pages().contains_key(x) && b.pages()[x] == a.pages()[x]);
            assert(!(x == page && b.own(x)));
        }
    }
    assert forall|x: PageId| #[trigger] u.has(x) implies t.has(x) || v.has(x) || fresh(a, c, x) by {
        assert(whole.has(x) || fresh(b, c, x));
    }
    match r {
        Insert::Done(id) => {
            assert forall|k: Seq<u8>| #[trigger] u.find(k) == (if k == key {
                Some(v.bytes())
            } else {
                t.find(k)
            }) by {
                assert(u.find(k) == whole.find(k));
            }
        },
        Insert::Split(l, sep, right) => {
            assert forall|x: PageId| #[trigger] w.has(x) implies t.has(x) || v.has(x) || fresh(
                a,
                c,
                x,
            ) by {
                assert(whole.has(x) || fresh(b, c, x));
            }
            assert forall|k: Seq<u8>|
                (if lex_lt(k, sep@) {
                    #[trigger] u.find(k)
                } else {
                    w.find(k)
                }) == (if k == key {
                    Some(v.bytes())
                } else {
                    t.find(k)
                }) by {
                assert(whole.find(k) == whole.find(k));
            }
        },
    }
}

#[verifier::rlimit(60)]
fn insert_rec<'p, S: Storage>(
    batch: &mut WriteBatch<'p, S>,
    page: PageId,
    key: &[u8],
    value: ValueRef,
    fuel: u64,
    Ghost(t): Ghost<Tree>,
    Ghost(st): Ghost<Stored>,
    Ghost(lo): Ghost<Option<Seq<u8>>>,
    Ghost(hi): Ghost<Option<Seq<u8>>>,
) -> (r: Result<(Insert, Ghost<(Tree, Tree)>)>)
    requires
        old(batch).wf(),
        0 < key@.len() <= max_key(old(batch).size()),
        value@ matches VRef::Inline(v) ==> v.len() <= inline_limit(old(batch).size()),
    ensures
        final(batch).next() <= old(batch).next() + 2 * fuel,
        extends(*old(batch), *final(batch)),
        *final(final(batch).pager) == *final(old(batch).pager),
        put_ready(*old(batch), t, st, lo, hi) && t.root() == page && crate::tree::in_range(
            key@,
            lo,
            hi,
        ) && st.vref() == value@ && t.nodes() <= fuel ==> match r {
            Ok((ins, g)) => put_done(
                *old(batch),
                *final(batch),
                t,
                st,
                key@,
                ins,
                g@.0,
                g@.1,
                lo,
                hi,
            ),
            Err(_) => !old(batch).reliable() || final(batch).next() >= crate::page::MAX_PAGES,
        },
    decreases fuel,
{
    let ghost b0 = *batch;
    let ghost ps = batch.size();
    let ghost good = put_ready(b0, t, st, lo, hi) && t.root() == page && crate::tree::in_range(
        key@,
        lo,
        hi,
    ) && st.vref() == value@ && t.nodes() <= fuel;
    proof {
        b0.lemma_facts();
        lemma_extends_self(b0);
    }
    if fuel == 0 {
        return Err(endless(page));
    }
    let buf = match batch.read_page(page) {
        Ok(b) => b,
        Err(e) => {
            return Err(e);
        },
    };
    let node = match Node::decode(buf.as_slice(), page) {
        Ok(n) => n,
        Err(e) => {
            return Err(e);
        },
    };
    proof {
        crate::node::lemma_node_fits(buf@);
        if good {
            assert(node@ == t.node());
        }
    }
    match node {
        Node::Leaf { entries } => insert_leaf(
            batch,
            page,
            entries,
            key,
            value,
            Ghost(t),
            Ghost(st),
            Ghost(lo),
            Ghost(hi),
        ),
        Node::Branch { first_child, entries } => {
            let idx: usize = branch_position(&entries, key);
            let child: PageId = child_at(first_child, &entries, idx);
            let ghost v0 = entries@;
            let ghost seps: Seq<Seq<u8>> = match t {
                Tree::Leaf(id, e) => Seq::empty(),
                Tree::Branch(id, s, k) => s,
            };
            let ghost kids: Seq<Tree> = match t {
                Tree::Leaf(id, e) => Seq::empty(),
                Tree::Branch(id, s, k) => k,
            };
            let ghost kid = kids[idx as int];
            let ghost klo = kid_lo(seps, lo, idx as int);
            let ghost khi = kid_hi(seps, hi, idx as int);
            proof {
                if good {
                    assert(t == Tree::Branch(page, seps, kids));
                    lemma_branch_node(seps, kids);
                    assert(branch_view(v0) == kid_cells(seps, kids));
                    lemma_route(seps, key@);
                    lemma_kid_nodes(kids, idx as int);
                    if idx > 0 {
                        assert(kid_cells(seps, kids)[idx - 1].1 == kid.root());
                        assert(branch_view(v0)[idx - 1].1 == v0[idx - 1].1);
                    }
                    assert(kid.ok(ps, klo, khi));
                    assert(kid.holds(b0.pages(), ps));
                    assert(put_ready(b0, kid, st, klo, khi)) by {
                        assert forall|x: PageId| #[trigger] kid.has(x) implies !b0.spare(x) by {
                            crate::tree::lemma_branch_has(page, seps, kids, idx as int, x);
                        }
                        assert forall|x: PageId| #[trigger] st.has(x) implies !kid.has(x) by {
                            if kid.has(x) {
                                crate::tree::lemma_branch_has(page, seps, kids, idx as int, x);
                            }
                        }
                    }
                }
            }
            let (ins, g) = match insert_rec(
                batch,
                child,
                key,
                value,
                fuel - 1,
                Ghost(kid),
                Ghost(st),
                Ghost(klo),
                Ghost(khi),
            ) {
                Ok(x) => x,
                Err(e) => {
                    return Err(e);
                },
            };
            let ghost b1 = *batch;
            let ghost u = g@.0;
            let ghost w = g@.1;
            let mut first_child: PageId = first_child;
            let mut entries: Vec<(Vec<u8>, PageId)> = entries;
            match ins {
                Insert::Done(new_child) => {
                    set_child(&mut first_child, &mut entries, idx, new_child);
                    let ghost kids1 = kids.update(idx as int, u);
                    proof {
                        lemma_set_child_len(v0, entries@);
                        if good {
                            lemma_child_replaced(b0, b1, page, seps, kids, idx as int, st, u, lo, hi);
                            lemma_siblings(b0, b1, page, seps, kids, idx as int, st, u, lo, hi);
                            lemma_set_child(v0, entries@, seps, kids, idx as int, u);
                        }
                    }
                    match finish_branch(
                        batch,
                        page,
                        first_child,
                        entries,
                        Ghost(seps),
                        Ghost(kids1),
                        Ghost(lo),
                        Ghost(hi),
                    ) {
                        Ok((ins2, g2)) => {
                            proof {
                                lemma_extends_trans(b0, b1, *batch);
                                if good {
                                    let whole = Tree::Branch(page, seps, kids1);
                                    lemma_update_has(page, seps, kids, idx as int, u);
                                    assert forall|x: PageId| #[trigger] whole.has(x) implies t.has(x)
                                        || st.has(x) || fresh(b0, b1, x) by {}
                                    assert forall|k: Seq<u8>| #[trigger] whole.find(k) == (if k
                                        == key@ {
                                        Some(st.bytes())
                                    } else {
                                        t.find(k)
                                    }) by {
                                        lemma_route(seps, k);
                                        let n = route(seps, k);
                                        assert(whole.find(k) == kids1[n].find(k));
                                        assert(t.find(k) == kids[n].find(k));
                                        if n == idx {
                                            assert(u.find(k) == u.find(k));
                                        }
                                    }
                                    lemma_branch_insert_done(
                                        b0,
                                        b1,
                                        *batch,
                                        page,
                                        seps,
                                        kids,
                                        idx as int,
                                        st,
                                        key@,
                                        whole,
                                        ins2,
                                        g2@.0,
                                        g2@.1,
                                        lo,
                                        hi,
                                    );
                                }
                            }
                            Ok((ins2, g2))
                        },
                        Err(e) => {
                            proof {
                                lemma_extends_trans(b0, b1, *batch);
                            }
                            Err(e)
                        },
                    }
                },
                Insert::Split(left, sep, right) => {
                    set_child(&mut first_child, &mut entries, idx, left);
                    let ghost v1 = entries@;
                    let ghost s = sep@;
                    proof {
                        lemma_set_child_len(v0, v1);
                        if good {
                            lemma_set_child(v0, v1, seps, kids, idx as int, u);
                        }
                    }
                    if sep.len() > 65536 {
                        return Err(Error::corrupted(Some(page), "node does not fit its page"));
                    }
                    entries.insert(idx, (sep, right));
                    let ghost seps1 = seps.insert(idx as int, s);
                    let ghost kids1 = kids.update(idx as int, u).insert(idx + 1, w);
                    proof {
                        let c1 = branch_view(v1);
                        assert(branch_view(entries@) =~= c1.insert(idx as int, (s, right)));
                        lemma_cells_insert_len(c1, idx as int, (s, right));
                        if good {
                            lemma_siblings(b0, b1, page, seps, kids, idx as int, st, u, lo, hi);
                            lemma_child_split(
                                b0,
                                b1,
                                page,
                                seps,
                                kids,
                                idx as int,
                                st,
                                u,
                                w,
                                s,
                                lo,
                                hi,
                            );
                            lemma_split_cells(seps, kids, idx as int, u, w, s);
                            assert(kids1[0].root() == first_child) by {
                                if idx > 0 {
                                    assert(kids1[0] == kids[0]);
                                } else {
                                    assert(kids1[0] == u);
                                }
                            }
                        }
                    }
                    match finish_branch(
                        batch,
                        page,
                        first_child,
                        entries,
                        Ghost(seps1),
                        Ghost(kids1),
                        Ghost(lo),
                        Ghost(hi),
                    ) {
                        Ok((ins2, g2)) => {
                            proof {
                                lemma_extends_trans(b0, b1, *batch);
                                if good {
                                    let whole = Tree::Branch(page, seps1, kids1);
                                    lemma_split_has(page, seps, kids, idx as int, u, w, seps1);
                                    assert forall|x: PageId| #[trigger] whole.has(x) implies t.has(x)
                                        || st.has(x) || fresh(b0, b1, x) by {}
                                    assert forall|k: Seq<u8>| #[trigger] whole.find(k) == (if k
                                        == key@ {
                                        Some(st.bytes())
                                    } else {
                                        t.find(k)
                                    }) by {
                                        lemma_split_find(page, seps, kids, idx as int, u, w, s, k);
                                        lemma_route(seps, k);
                                        let n = route(seps, k);
                                        assert(t.find(k) == kids[n].find(k));
                                        assert(u.find(k) == u.find(k));
                                    }
                                    lemma_branch_insert_done(
                                        b0,
                                        b1,
                                        *batch,
                                        page,
                                        seps,
                                        kids,
                                        idx as int,
                                        st,
                                        key@,
                                        whole,
                                        ins2,
                                        g2@.0,
                                        g2@.1,
                                        lo,
                                        hi,
                                    );
                                }
                            }
                            Ok((ins2, g2))
                        },
                        Err(e) => {
                            proof {
                                lemma_extends_trans(b0, b1, *batch);
                            }
                            Err(e)
                        },
                    }
                },
            }
        },
    }
}

/// Point conceptual child `idx` at another page.
fn set_child(
    first_child: &mut PageId,
    entries: &mut Vec<(Vec<u8>, PageId)>,
    idx: usize,
    child: PageId,
)
    requires
        idx <= old(entries)@.len(),
    ensures
        final(entries)@.len() == old(entries)@.len(),
        forall|i: int|
            0 <= i < old(entries)@.len() ==> (#[trigger] final(entries)@[i]).0 == old(entries)@[i].0
                && final(entries)@[i].1 == (if i + 1 == idx {
                child
            } else {
                old(entries)@[i].1
            }),
        *final(first_child) == (if idx == 0 {
            child
        } else {
            *old(first_child)
        }),
{
    if idx == 0 {
        *first_child = child;
    } else {
        entries[idx - 1].1 = child;
    }
}

proof fn lemma_set_child_len(v0: Seq<(Vec<u8>, PageId)>, v1: Seq<(Vec<u8>, PageId)>)
    requires
        v0.len() == v1.len(),
        forall|i: int| 0 <= i < v0.len() ==> (#[trigger] v1[i]).0 == v0[i].0,
    ensures
        crate::node::branch_len(branch_view(v1)) == crate::node::branch_len(branch_view(v0)),
{
    assert forall|i: int| 0 <= i < v1.len() implies (#[trigger] branch_view(v1)[i]).0.len()
        == branch_view(v0)[i].0.len() by {
        assert(v1[i].0 == v0[i].0);
    }
    crate::tree::lemma_branch_len_keys(branch_view(v1), branch_view(v0));
}

proof fn lemma_set_child(
    v0: Seq<(Vec<u8>, PageId)>,
    v1: Seq<(Vec<u8>, PageId)>,
    seps: Seq<Seq<u8>>,
    kids: Seq<Tree>,
    idx: int,
    c: Tree,
)
    requires
        kids.len() == seps.len() + 1,
        0 <= idx < kids.len(),
        branch_view(v0) == kid_cells(seps, kids),
        v1.len() == v0.len(),
        forall|i: int|
            0 <= i < v0.len() ==> (#[trigger] v1[i]).0 == v0[i].0 && v1[i].1 == (if i + 1 == idx {
                c.root()
            } else {
                v0[i].1
            }),
    ensures
        branch_view(v1) == kid_cells(seps, kids.update(idx, c)),
{
    let k = kids.update(idx, c);
    assert(branch_view(v0).len() == v0.len() && kid_cells(seps, kids).len() == seps.len());
    assert forall|i: int| 0 <= i < v1.len() implies branch_view(v1)[i] == kid_cells(seps, k)[i] by {
        assert(branch_view(v0)[i] == kid_cells(seps, kids)[i]);
        assert(v1[i].0 == v0[i].0);
    }
    assert(branch_view(v1) =~= kid_cells(seps, k));
}

proof fn lemma_cells_insert_len(
    v: Seq<crate::node::BranchCell>,
    at: int,
    c: crate::node::BranchCell,
)
    requires
        0 <= at <= v.len(),
    ensures
        crate::node::branch_len(v.insert(at, c)) == crate::node::branch_len(v)
            + crate::node::branch_cell_len(c),
{
    assert(v.insert(at, c) =~= v.take(at) + (seq![c] + v.skip(at)));
    crate::node::lemma_branch_len_add(v.take(at), seq![c] + v.skip(at));
    crate::node::lemma_branch_len_add(seq![c], v.skip(at));
    lemma_branch_len_one(c);
    lemma_branch_len_cut(v, at);
}

proof fn lemma_update_has(page: PageId, seps: Seq<Seq<u8>>, kids: Seq<Tree>, idx: int, c: Tree)
    requires
        0 <= idx < kids.len(),
    ensures
        forall|x: PageId| #[trigger]
            Tree::Branch(page, seps, kids.update(idx, c)).has(x) ==> c.has(x) || Tree::Branch(
                page,
                seps,
                kids,
            ).has(x),
{
    let t = Tree::Branch(page, seps, kids);
    let k = kids.update(idx, c);
    assert forall|x: PageId| #[trigger] Tree::Branch(page, seps, k).has(x) implies c.has(x) || t.has(
        x,
    ) by {
        if x == page {
            assert(t.has(page));
        } else {
            let i = choose|i: int| 0 <= i < k.len() && (#[trigger] k[i]).has(x);
            if i != idx {
                assert(k[i] == kids[i]);
                crate::tree::lemma_branch_has(page, seps, kids, i, x);
            }
        }
    }
}

proof fn lemma_split_has(
    page: PageId,
    seps: Seq<Seq<u8>>,
    kids: Seq<Tree>,
    idx: int,
    c: Tree,
    d: Tree,
    z: Seq<Seq<u8>>,
)
    requires
        0 <= idx < kids.len(),
    ensures
        forall|x: PageId| #[trigger]
            Tree::Branch(page, z, kids.update(idx, c).insert(idx + 1, d)).has(x) ==> c.has(x)
                || d.has(x) || Tree::Branch(page, seps, kids).has(x),
{
    let t = Tree::Branch(page, seps, kids);
    let k = kids.update(idx, c).insert(idx + 1, d);
    assert forall|x: PageId| #[trigger] Tree::Branch(page, z, k).has(x) implies c.has(x) || d.has(x)
        || t.has(x) by {
        if x == page {
            assert(t.has(page));
        } else {
            let i = choose|i: int| 0 <= i < k.len() && (#[trigger] k[i]).has(x);
            if i < idx {
                assert(k[i] == kids[i]);
                crate::tree::lemma_branch_has(page, seps, kids, i, x);
            } else if i == idx {
                assert(k[i] == c);
            } else if i == idx + 1 {
                assert(k[i] == d);
            } else {
                assert(k[i] == kids[i - 1]);
                crate::tree::lemma_branch_has(page, seps, kids, i - 1, x);
            }
        }
    }
}

// ---------------------------------------------------------------------
// Overflow chains
// ---------------------------------------------------------------------

/// The pieces a value is cut into: `ids[i]` carries from `cuts[i]` to the
/// next cut.
pub open spec fn pieces(ids: Seq<PageId>, cuts: Seq<usize>, value: Seq<u8>) -> Seq<(PageId, Seq<u8>)> {
    Seq::new(
        ids.len(),
        |i: int|
            (
                ids[i],
                value.subrange(
                    cuts[i] as int,
                    if i + 1 < cuts.len() {
                        cuts[i + 1] as int
                    } else {
                        value.len() as int
                    },
                ),
            ),
    )
}

proof fn lemma_pieces_joined(ids: Seq<PageId>, cuts: Seq<usize>, value: Seq<u8>, n: int)
    requires
        ids.len() == cuts.len() > 0,
        cuts[0] == 0,
        forall|i: int| 0 <= i < cuts.len() ==> #[trigger] cuts[i] <= value.len(),
        forall|i: int, j: int| 0 <= i < j < cuts.len() ==> #[trigger] cuts[i] <= #[trigger] cuts[j],
        0 <= n <= ids.len(),
    ensures
        joined(pieces(ids, cuts, value).take(n)) == value.subrange(
            0,
            if n < cuts.len() {
                cuts[n] as int
            } else {
                value.len() as int
            },
        ),
    decreases n,
{
    let p = pieces(ids, cuts, value);
    if n == 0 {
        assert(p.take(0) =~= Seq::empty());
        assert(value.subrange(0, 0) =~= Seq::empty());
    } else {
        lemma_pieces_joined(ids, cuts, value, n - 1);
        lemma_joined_take(p, n - 1);
        let from = cuts[n - 1] as int;
        let to = if n < cuts.len() {
            cuts[n] as int
        } else {
            value.len() as int
        };
        assert(value.subrange(0, from) + value.subrange(from, to) =~= value.subrange(0, to));
    }
}

/// The bytes of an overflow page.
fn overflow_page(ps: u32, next: PageId, part: &[u8]) -> (r: Vec<u8>)
    requires
        page_size_ok(ps),
        part@.len() <= chunk_len(ps),
    ensures
        r@.len() == ps,
        part_of(r@) == Some((next, part@)),
{
    let mut buf: Vec<u8> = zero_vec(ps as usize);
    crate::page::init_header(buf.as_mut_slice(), PageType::Overflow);
    let n: usize = part.len();
    let ghost b0 = buf@;
    proof {
        lemma_splice_reads(
            zeros(ps as nat),
            4,
            seq![PageType::Overflow.spec_code(), 0u8, 0u8, 0u8],
        );
        lemma_field64(next);
        lemma_field16(n as u16);
        lemma_splice_reads(b0, 16, le_bytes(next as nat, 8));
    }
    set_le(buf.as_mut_slice(), 16, next, 8);
    let ghost b1 = buf@;
    proof {
        lemma_splice_reads(b1, 24, le_bytes(n as nat, 2));
    }
    set_le(buf.as_mut_slice(), 24, n as u64, 2);
    let ghost b2 = buf@;
    proof {
        lemma_splice_reads(b2, 26, part@);
    }
    set_all(buf.as_mut_slice(), 26, part);
    buf
}

/// Where a value is cut to fit pieces of `chunk` bytes.
fn cut_points(len: usize, chunk: usize) -> (r: Vec<usize>)
    requires
        0 < len,
        0 < chunk,
    ensures
        r@.len() > 0,
        r@[0] == 0,
        (r@.len() - 1) * chunk < len,
        forall|i: int| 0 <= i < r@.len() ==> #[trigger] r@[i] < len,
        forall|i: int|
            0 <= i < r@.len() ==> (if i + 1 < r@.len() {
                r@[i + 1] as int
            } else {
                len as int
            }) - (#[trigger] r@[i]) <= chunk,
        forall|i: int, j: int| 0 <= i < j < r@.len() ==> #[trigger] r@[i] <= #[trigger] r@[j],
{
    let mut cuts: Vec<usize> = Vec::new();
    let mut at: usize = 0;
    proof {
        assert(0 * chunk as int == 0) by (nonlinear_arith);
    }
    while at < len
        invariant
            0 < chunk,
            at <= len,
            at < len ==> at == cuts@.len() * chunk,
            at == len && cuts@.len() > 0 ==> (cuts@.len() - 1) * chunk < len,
            cuts@.len() > 0 ==> cuts@[0] == 0,
            cuts@.len() == 0 ==> at == 0,
            forall|i: int| 0 <= i < cuts@.len() ==> #[trigger] cuts@[i] < at,
            forall|i: int|
                0 <= i < cuts@.len() ==> (if i + 1 < cuts@.len() {
                    cuts@[i + 1] as int
                } else {
                    at as int
                }) - (#[trigger] cuts@[i]) <= chunk,
            forall|i: int, j: int| 0 <= i < j < cuts@.len() ==> #[trigger] cuts@[i] <= #[trigger] cuts@[j],
        decreases len - at,
    {
        let ghost c0 = cuts@;
        cuts.push(at);
        if len - at > chunk {
            at = at + chunk;
        } else {
            at = len;
        }
        proof {
            let n = c0.len() as int;
            assert((n + 1) * chunk == n * chunk + chunk) by (nonlinear_arith);
            assert forall|i: int| 0 <= i < cuts@.len() implies (if i + 1 < cuts@.len() {
                cuts@[i + 1] as int
            } else {
                at as int
            }) - (#[trigger] cuts@[i]) <= chunk by {
                if i < c0.len() {
                    assert(cuts@[i] == c0[i]);
                    if i + 1 < c0.len() {
                        assert(cuts@[i + 1] == c0[i + 1]);
                    }
                }
            }
        }
    }
    cuts
}

/// Allocate `n` overflow pages.
#[verifier::rlimit(40)]
fn allocate_many<'p, S: Storage>(batch: &mut WriteBatch<'p, S>, n: usize) -> (r: Result<Vec<PageId>>)
    requires
        old(batch).wf(),
    ensures
        final(batch).next() <= old(batch).next() + n,
        extends(*old(batch), *final(batch)),
        *final(final(batch).pager) == *final(old(batch).pager),
        forall|x: PageId| #[trigger]
            old(batch).pages().contains_key(x) && !fresh(*old(batch), *final(batch), x) ==> final(
                batch).pages().contains_key(x) && final(batch).pages()[x] == old(batch).pages()[x],
        match r {
            Ok(ids) => {
                &&& ids@.len() == n
                &&& forall|i: int|
                    0 <= i < ids@.len() ==> fresh(*old(batch), *final(batch), #[trigger] ids@[i])
                        && ids@[i] >= 2
                &&& forall|i: int, j: int|
                    0 <= i < j < ids@.len() ==> #[trigger] ids@[i] != #[trigger] ids@[j]
            },
            Err(_) => final(batch).next() >= crate::page::MAX_PAGES,
        },
{
    let ghost b0 = *batch;
    let mut ids: Vec<PageId> = Vec::new();
    proof {
        lemma_extends_self(b0);
    }
    while ids.len() < n
        invariant
            b0 == *old(batch),
            batch.wf(),
            extends(b0, *batch),
            *final(batch.pager) == *final(old(batch).pager),
            ids@.len() <= n,
            batch.next() <= b0.next() + ids@.len(),
            forall|i: int| 0 <= i < ids@.len() ==> fresh(b0, *batch, #[trigger] ids@[i]) && ids@[i] >= 2,
            forall|i: int, j: int| 0 <= i < j < ids@.len() ==> #[trigger] ids@[i] != #[trigger] ids@[j],
            forall|x: PageId| #[trigger]
                b0.pages().contains_key(x) && !fresh(b0, *batch, x) ==> batch.pages().contains_key(x)
                    && batch.pages()[x] == b0.pages()[x],
        decreases n - ids@.len(),
    {
        let ghost b1 = *batch;
        let ghost i0 = ids@;
        let id: PageId = match batch.allocate(PageType::Overflow) {
            Ok(id) => id,
            Err(e) => {
                proof {
                    lemma_rewrite(b1, *batch);
                    lemma_extends_trans(b0, b1, *batch);
                    assert forall|x: PageId| #[trigger]
                        b0.pages().contains_key(x) && !fresh(b0, *batch, x) implies
                        batch.pages().contains_key(x) && batch.pages()[x] == b0.pages()[x] by {
                        assert(!fresh(b0, b1, x));
                    }
                }
                return Err(e);
            },
        };
        proof {
            lemma_step(b1, *batch, id);
            lemma_extends_trans(b0, b1, *batch);
            assert(fresh(b1, *batch, id));
            assert forall|i: int| 0 <= i < i0.len() implies fresh(b0, *batch, #[trigger] i0[i])
                && i0[i] != id by {
                assert(fresh(b0, b1, i0[i]));
                assert(b1.own(i0[i]));
            }
            assert forall|x: PageId| #[trigger]
                b0.pages().contains_key(x) && !fresh(b0, *batch, x) implies batch.pages().contains_key(
                x,
            ) && batch.pages()[x] == b0.pages()[x] by {
                assert(!fresh(b0, b1, x) && !fresh(b1, *batch, x));
                assert(x != id);
            }
        }
        ids.push(id);
    }
    Ok(ids)
}

/// Store a value on a chain of overflow pages.
#[verifier::rlimit(60)]
fn write_overflow<'p, S: Storage>(batch: &mut WriteBatch<'p, S>, value: &[u8]) -> (r: Result<
    (ValueRef, Ghost<Stored>),
>)
    requires
        old(batch).wf(),
        value@.len() > 0,
    ensures
        final(batch).next() <= old(batch).next() + value@.len() + 1,
        extends(*old(batch), *final(batch)),
        *final(final(batch).pager) == *final(old(batch).pager),
        forall|x: PageId| #[trigger]
            old(batch).pages().contains_key(x) && !fresh(*old(batch), *final(batch), x) ==> final(batch).pages().contains_key(x) && final(batch).pages()[x] == old(batch).pages()[x],
        match r {
            Ok((v, g)) => {
                &&& v@ is Overflow
                &&& v@ == g@.vref()
                &&& g@.ok(old(batch).size())
                &&& g@.bytes() == value@
                &&& g@.holds(final(batch).pages(), old(batch).size())
                &&& forall|x: PageId| #[trigger] g@.has(x) ==> fresh(*old(batch), *final(batch), x)
            },
            Err(_) => final(batch).next() >= crate::page::MAX_PAGES,
        },
{
    let ps: u32 = batch.page_size();
    let chunk: usize = overflow_capacity(ps);
    let len: usize = value.len();
    let ghost b0 = *batch;
    proof {
        b0.lemma_facts();
        lemma_extends_self(b0);
    }
    let cuts: Vec<usize> = cut_points(len, chunk);
    proof {
        let c = cuts@.len() as int;
        assert(c <= len) by (nonlinear_arith)
            requires
                (c - 1) * chunk < len,
                chunk >= 1,
        ;
    }
    let ids: Vec<PageId> = match allocate_many(batch, cuts.len()) {
        Ok(v) => v,
        Err(e) => {
            return Err(e);
        },
    };
    let ghost p = pieces(ids@, cuts@, value@);
    let ghost b1 = *batch;
    let n: usize = ids.len();
    let mut i: usize = 0;
    while i < n
        invariant
            b0 == *old(batch),
            batch.wf(),
            extends(b0, b1),
            extends(b1, *batch),
            batch.next() == b1.next(),
            *final(batch.pager) == *final(old(batch).pager),
            ps == b0.size(),
            page_size_ok(ps),
            chunk == chunk_len(ps),
            len == value@.len(),
            i <= n == ids@.len() == cuts@.len(),
            p == pieces(ids@, cuts@, value@),
            forall|j: int| 0 <= j < cuts@.len() ==> #[trigger] cuts@[j] < len,
            forall|j: int|
                0 <= j < cuts@.len() ==> (if j + 1 < cuts@.len() {
                    cuts@[j + 1] as int
                } else {
                    len as int
                }) - (#[trigger] cuts@[j]) <= chunk,
            forall|j: int, k: int| 0 <= j < k < cuts@.len() ==> #[trigger] cuts@[j] <= #[trigger] cuts@[k],
            forall|j: int| 0 <= j < ids@.len() ==> fresh(b0, b1, #[trigger] ids@[j]) && ids@[j] >= 2,
            forall|j: int, k: int| 0 <= j < k < ids@.len() ==> #[trigger] ids@[j] != #[trigger] ids@[k],
            forall|x: PageId| #[trigger] batch.own(x) == b1.own(x),
            forall|x: PageId| #[trigger]
                b0.pages().contains_key(x) && !fresh(b0, *batch, x) ==> batch.pages().contains_key(x)
                    && batch.pages()[x] == b0.pages()[x],
            forall|j: int|
                0 <= j < i ==> {
                    &&& batch.pages().contains_key((#[trigger] p[j]).0)
                    &&& batch.pages()[p[j].0].len() == ps
                    &&& part_of(batch.pages()[p[j].0]) == Some((link(p, j), p[j].1))
                },
        decreases n - i,
    {
        let from: usize = cuts[i];
        let to: usize = if i + 1 < n {
            cuts[i + 1]
        } else {
            len
        };
        let next: PageId = if i + 1 < n {
            ids[i + 1]
        } else {
            NIL_PAGE
        };
        let id: PageId = ids[i];
        proof {
            assert(cuts@[i as int] <= to);
        }
        let part = sub_vec(value, from, to);
        let buf = overflow_page(ps, next, part.as_slice());
        let ghost b2 = *batch;
        proof {
            assert(p[i as int] == (id, part@));
            assert(link(p, i as int) == next) by {
                if i + 1 < n {
                    assert(p[i + 1].0 == ids@[i + 1]);
                }
            }
            assert(fresh(b0, b1, id));
            assert(b1.own(id));
            assert(batch.own(id));
        }
        let done = batch.write_page(id, buf);
        proof {
            assert(done is Ok);
            lemma_rewrite(b2, *batch);
            lemma_extends_trans(b1, b2, *batch);
            assert forall|x: PageId| #[trigger] batch.own(x) == b1.own(x) by {
                assert(b2.own(x) == b1.own(x));
            }
            assert forall|x: PageId| #[trigger]
                b0.pages().contains_key(x) && !fresh(b0, *batch, x) implies batch.pages().contains_key(
                x,
            ) && batch.pages()[x] == b0.pages()[x] by {
                assert(batch.own(x) == b1.own(x));
                assert(b2.own(x) == b1.own(x));
                assert(!fresh(b0, b2, x));
                assert(x != id);
            }
            assert forall|j: int| 0 <= j < i + 1 implies {
                &&& batch.pages().contains_key((#[trigger] p[j]).0)
                &&& batch.pages()[p[j].0].len() == ps
                &&& part_of(batch.pages()[p[j].0]) == Some((link(p, j), p[j].1))
            } by {
                if j < i {
                    assert(p[j].0 == ids@[j]);
                    assert(ids@[j] != ids@[i as int]);
                }
            }
        }
        i = i + 1;
    }
    let ghost st = Stored::Chain(p);
    proof {
        lemma_extends_trans(b0, b1, *batch);
        lemma_pieces_joined(ids@, cuts@, value@, n as int);
        assert(p.take(n as int) =~= p);
        assert(value@.subrange(0, len as int) =~= value@);
        assert(n <= (len + chunk - 1) / (chunk as int)) by (nonlinear_arith)
            requires
                (n - 1) * chunk < len,
                chunk >= 486,
                n >= 1,
        ;
        assert forall|j: int| 0 <= j < p.len() implies (#[trigger] p[j]).0 >= 2 && p[j].1.len()
            <= chunk_len(ps) by {
            assert(p[j].0 == ids@[j]);
            assert(cuts@[j] < len);
            if j + 1 < cuts@.len() {
                assert(cuts@[j] <= cuts@[j + 1]);
            }
        }
        assert forall|j: int, k: int| 0 <= j < k < p.len() implies (#[trigger] p[j]).0 != (
        #[trigger] p[k]).0 by {
            assert(ids@[j] != ids@[k]);
        }
        assert forall|x: PageId| #[trigger] st.has(x) implies fresh(b0, *batch, x) by {
            let j = choose|j: int| 0 <= j < p.len() && (#[trigger] p[j]).0 == x;
            assert(fresh(b0, b1, ids@[j]));
        }
        assert(p[0].0 == ids@[0]);
    }
    Ok((ValueRef::Overflow { head: ids[0], len: len as u64 }, Ghost(st)))
}

/// One allocation is a step.
pub proof fn lemma_step<'p, S: Storage>(a: WriteBatch<'p, S>, b: WriteBatch<'p, S>, id: PageId)
    requires
        b.wf(),
        b.keeps(&a),
        b.next() >= a.next(),
        forall|x: PageId| #[trigger] b.own(x) == (a.own(x) || x == id),
        a.free_ok() ==> b.free_ok() && a.spare(id) && forall|x: PageId| #[trigger]
            b.spare(x) ==> a.spare(x) && x != id,
    ensures
        extends(a, b),
{
    assert forall|x: PageId| #[trigger] a.own(x) implies b.own(x) by {}
    if a.free_ok() {
        assert forall|x: PageId| #[trigger] fresh(a, b, x) implies a.spare(x) && !b.spare(x) by {
            assert(x == id);
        }
    }
}

/// Rewriting an owned page is a step.
pub proof fn lemma_rewrite<'p, S: Storage>(a: WriteBatch<'p, S>, b: WriteBatch<'p, S>)
    requires
        b.wf(),
        b.keeps(&a),
        b.next() >= a.next(),
        forall|x: PageId| #[trigger] b.own(x) == a.own(x),
        a.free_ok() ==> b.free_ok() && forall|x: PageId| #[trigger] b.spare(x) ==> a.spare(x),
    ensures
        extends(a, b),
{
    assert forall|x: PageId| #[trigger] a.own(x) implies b.own(x) by {
        assert(b.own(x) == a.own(x));
    }
}

/// Apart from owned pages of the tree and new pages, everything reads as
/// before.
pub open spec fn only_otree<'p, S: Storage>(
    a: WriteBatch<'p, S>,
    b: WriteBatch<'p, S>,
    o: Option<Tree>,
) -> bool {
    forall|x: PageId| #[trigger]
        a.pages().contains_key(x) && !(ohas(o, x) && a.own(x)) && !fresh(a, b, x)
            ==> b.pages().contains_key(x) && b.pages()[x] == a.pages()[x]
}

/// Ready to be edited: a sound tree none of whose pages is spare.
pub open spec fn editable<'p, S: Storage>(b: WriteBatch<'p, S>, root: PageId) -> bool {
    &&& b.free_ok()
    &&& sound_root(b.pages(), b.size(), root)
    &&& forall|x: PageId| #[trigger]
        ohas(tree_of(b.pages(), b.size(), root), x) ==> !b.spare(x)
}

/// The tree under `root` in `a` became the one under `next` in `b`: it uses
/// pages it had or new ones, and no other page was disturbed.
pub open spec fn edited<'p, S: Storage>(
    a: WriteBatch<'p, S>,
    b: WriteBatch<'p, S>,
    root: PageId,
    next: PageId,
) -> bool {
    let o = tree_of(a.pages(), a.size(), root);
    let p = tree_of(b.pages(), b.size(), next);
    &&& sound_root(b.pages(), b.size(), next)
    &&& only_otree(a, b, o)
    &&& forall|x: PageId| #[trigger] ohas(p, x) ==> ohas(o, x) || fresh(a, b, x)
}

/// Every key finds what it found before, but `key`, which finds `value`.
pub open spec fn finds_set(o: Option<Tree>, p: Option<Tree>, key: Seq<u8>, value: Option<Seq<u8>>) -> bool {
    forall|k: Seq<u8>| #[trigger]
        ofind(p, k) == (if k == key {
            value
        } else {
            ofind(o, k)
        })
}

/// A branch with two children.
pub open spec fn root_over(id: PageId, sep: Seq<u8>, u: Tree, w: Tree) -> Tree {
    Tree::Branch(id, seq![sep], seq![u, w])
}

/// A new root over the two halves of the old one.
#[verifier::rlimit(40)]
proof fn lemma_new_root<'p, S: Storage>(
    a: WriteBatch<'p, S>,
    b: WriteBatch<'p, S>,
    id: PageId,
    sep: Seq<u8>,
    u: Tree,
    w: Tree,
)
    requires
        a.wf(),
        a.free_ok(),
        extends(a, b),
        fresh(a, b, id),
        id >= 2,
        u.ok(a.size(), None, Some(sep)),
        w.ok(a.size(), Some(sep), None),
        u.holds(a.pages(), a.size()),
        w.holds(a.pages(), a.size()),
        unspared(a, u),
        unspared(a, w),
        crate::tree::disjoint(u, w),
        sep.len() <= max_key(a.size()),
        b.pages() == a.pages().insert(
            id,
            crate::node::node_bytes(
                NodeV::Branch(u.root(), seq![(sep, w.root())]),
                a.size() as nat,
            ),
        ),
        node_len(NodeV::Branch(u.root(), seq![(sep, w.root())])) <= a.size(),
    ensures
        tree_at(b.pages(), a.size(), id, root_over(id, sep, u, w)),
        forall|k: Seq<u8>| #[trigger]
            root_over(id, sep, u, w).find(k) == (if lex_lt(k, sep) {
                u.find(k)
            } else {
                w.find(k)
            }),
        forall|x: PageId| #[trigger]
            root_over(id, sep, u, w).has(x) ==> x == id || u.has(x) || w.has(x),
{
    let ps = a.size();
    let seps = seq![sep];
    let kids = seq![u, w];
    let t = Tree::Branch(id, seps, kids);
    a.lemma_facts();
    assert(kid_cells(seps, kids) =~= seq![(sep, w.root())]);
    lemma_branch_node(seps, kids);
    assert(t.node() == NodeV::Branch(u.root(), seq![(sep, w.root())]));
    lemma_written_node(t.node(), ps);
    assert(a.spare(id));
    assert(!u.has(id) && !w.has(id));
    lemma_grown_kept(a, b, id, u);
    lemma_grown_kept(a, b, id, w);
    assert(t.holds(b.pages(), ps)) by {
        assert forall|i: int| 0 <= i < kids.len() implies (#[trigger] kids[i]).holds(b.pages(), ps) by {
            if i == 0 {
                assert(kids[i] == u);
            } else {
                assert(kids[i] == w);
            }
        }
    }
    lemma_root_over(id, sep, u, w, ps);
}

/// A root over two halves is sound, and finds what they find.
proof fn lemma_root_over(id: PageId, sep: Seq<u8>, u: Tree, w: Tree, ps: u32)
    requires
        id >= 2,
        u.ok(ps, None, Some(sep)),
        w.ok(ps, Some(sep), None),
        !u.has(id),
        !w.has(id),
        crate::tree::disjoint(u, w),
        sep.len() <= max_key(ps),
        node_len(NodeV::Branch(u.root(), seq![(sep, w.root())])) <= ps,
    ensures
        root_over(id, sep, u, w).ok(ps, None, None),
        forall|k: Seq<u8>| #[trigger]
            root_over(id, sep, u, w).find(k) == (if lex_lt(k, sep) {
                u.find(k)
            } else {
                w.find(k)
            }),
        forall|x: PageId| #[trigger]
            root_over(id, sep, u, w).has(x) ==> x == id || u.has(x) || w.has(x),
{
    let seps = seq![sep];
    let kids = seq![u, w];
    let t = Tree::Branch(id, seps, kids);
    assert(kid_cells(seps, kids) =~= seq![(sep, w.root())]);
    assert(kids[0] == u && kids[1] == w);
    assert forall|i: int| 0 <= i < kids.len() implies (#[trigger] kids[i]).ok(
        ps,
        kid_lo(seps, None, i),
        kid_hi(seps, None, i),
    ) && !kids[i].has(id) by {
        if i == 0 {
            assert(kids[i] == u);
        } else {
            assert(kids[i] == w);
        }
    }
    assert forall|i: int, j: int| 0 <= i < j < kids.len() implies crate::tree::disjoint(
        #[trigger] kids[i],
        #[trigger] kids[j],
    ) by {
        assert(kids[i] == u && kids[j] == w);
    }
    assert(t.ok(ps, None, None));
    assert forall|k: Seq<u8>| #[trigger] t.find(k) == (if lex_lt(k, sep) {
        u.find(k)
    } else {
        w.find(k)
    }) by {
        crate::tree::lemma_lex_facts2(sep, k);
        if lex_lt(k, sep) {
            lemma_route_is(seps, k, 0);
        } else {
            lemma_route_is(seps, k, 1);
        }
        assert(t.find(k) == kids[route(seps, k)].find(k));
    }
    assert forall|x: PageId| #[trigger] t.has(x) implies x == id || u.has(x) || w.has(x) by {
        if x != id {
            let i = choose|i: int| 0 <= i < kids.len() && (#[trigger] kids[i]).has(x);
            if i == 0 {
                assert(kids[i] == u);
            } else {
                assert(kids[i] == w);
            }
        }
    }
}

/// Writing a page a tree does not use leaves the tree alone.
proof fn lemma_grown_kept<'p, S: Storage>(a: WriteBatch<'p, S>, b: WriteBatch<'p, S>, id: PageId, t: Tree)
    requires
        a.wf(),
        t.holds(a.pages(), a.size()),
        !t.has(id),
        forall|x: PageId|
            x != id && a.pages().contains_key(x) ==> #[trigger] b.pages().contains_key(x) && b.pages()[x]
                == a.pages()[x],
    ensures
        t.holds(b.pages(), a.size()),
{
    a.lemma_facts();
    assert forall|x: PageId| #[trigger] t.has(x) && a.pages().contains_key(x) implies
        b.pages().contains_key(x) && crate::tree::same_page(a.pages()[x], b.pages()[x]) by {
        assert(x != id);
        assert(b.pages().contains_key(x));
    }
    crate::tree::lemma_frame(t, a.pages(), b.pages(), a.size());
}

/// Insert or replace `key`. Returns the new root.
#[verifier::rlimit(80)]
pub fn put<'p, S: Storage>(
    batch: &mut WriteBatch<'p, S>,
    root: PageId,
    key: &[u8],
    value: &[u8],
) -> (r: Result<PageId>)
    requires
        old(batch).wf(),
    ensures
        final(batch).next() <= 3 * (old(batch).next() + value@.len() + 1) + 1,
        extends(*old(batch), *final(batch)),
        *final(final(batch).pager) == *final(old(batch).pager),
        key@.len() == 0 || key@.len() > max_key(old(batch).size()) ==> (r matches Err(
            Error::InvalidArgument(_),
        )) && *final(batch) == *old(batch),
        0 < key@.len() <= max_key(old(batch).size()) && editable(*old(batch), root) ==> match r {
            Ok(next) => next != NIL_PAGE && edited(*old(batch), *final(batch), root, next) && finds_set(
                tree_of(old(batch).pages(), old(batch).size(), root),
                tree_of(final(batch).pages(), old(batch).size(), next),
                key@,
                Some(value@),
            ),
            Err(_) => !old(batch).reliable() || final(batch).next() >= crate::page::MAX_PAGES,
        },
{
    let ps: u32 = batch.page_size();
    let ghost b0 = *batch;
    proof {
        b0.lemma_facts();
        lemma_extends_self(b0);
    }
    if key.len() == 0 {
        return Err(Error::InvalidArgument("keys must not be empty"));
    }
    if key.len() > max_key_len(ps) {
        return Err(Error::InvalidArgument("key exceeds max_key_len for this page size"));
    }
    let ghost good = editable(b0, root);
    let ghost o = tree_of(b0.pages(), ps, root);
    let inline: usize = inline_max(ps);
    let (vref, st) = if value.len() > inline {
        match write_overflow(batch, value) {
            Ok(x) => x,
            Err(e) => {
                return Err(e);
            },
        }
    } else {
        let ghost s = Stored::Inline(value@);
        (ValueRef::Inline(copy_vec(value)), Ghost(s))
    };
    let ghost b1 = *batch;
    let ghost s = st@;
    proof {
        assert(extends(b0, b1));
        b1.lemma_facts();
        assert forall|x: PageId| #[trigger] b0.pages().contains_key(x) && !fresh(b0, b1, x) implies
            b1.pages().contains_key(x) && b1.pages()[x] == b0.pages()[x] by {}
        assert(s.holds(b1.pages(), ps) && s.ok(ps) && s.bytes() == value@ && s.vref() == vref@);
        assert forall|x: PageId| #[trigger] s.has(x) implies fresh(b0, b1, x) by {}
        if good {
            assert forall|x: PageId| #[trigger] s.has(x) implies !b1.spare(x) && !ohas(o, x) by {
                assert(fresh(b0, b1, x));
            }
        }
    }
    if root == NIL_PAGE {
        let k: Vec<u8> = copy_vec(key);
        let mut entries: Vec<(Vec<u8>, ValueRef)> = Vec::new();
        entries.push((k, vref));
        let ghost e: Seq<Entry> = seq![(key@, s)];
        proof {
            assert(leaf_view(entries@) =~= entry_cells(e));
            lemma_leaf_len_one(entry_cells(e)[0]);
            assert(entry_cells(e) =~= seq![entry_cells(e)[0]]);
            lemma_cell_max((key@, s), ps);
        }
        let node = Node::Leaf { entries };
        let id: PageId = match write_node(batch, None, &node) {
            Ok(id) => id,
            Err(e) => {
                proof {
                    lemma_extends_trans(b0, b1, *batch);
                }
                return Err(e);
            },
        };
        proof {
            lemma_extends_trans(b0, b1, *batch);
            if good {
                lemma_first_leaf(b0, b1, *batch, id, key@, s);
            }
        }
        return Ok(id);
    }
    let fuel: u64 = batch.page_bound();
    let ghost t = o->0;
    proof {
        if good {
            assert(tree_at(b0.pages(), ps, root, t));
            assert forall|x: PageId| #[trigger] t.has(x) implies !b0.spare(x) && !b1.spare(x)
                && !fresh(b0, b1, x) by {
                assert(ohas(o, x));
            }
            assert forall|x: PageId| #[trigger] t.has(x) && b0.pages().contains_key(x) implies
                b1.pages().contains_key(x) && crate::tree::same_page(b0.pages()[x], b1.pages()[x]) by {
                assert(!fresh(b0, b1, x));
            }
            crate::tree::lemma_frame(t, b0.pages(), b1.pages(), ps);
            lemma_tree_nodes(t, b1.pages(), ps, fuel);
            assert forall|x: PageId| #[trigger] s.has(x) implies !t.has(x) by {
                assert(!ohas(o, x));
            }
            assert(put_ready(b1, t, s, None, None));
        }
    }
    let (ins, g) = match insert_rec(
        batch,
        root,
        key,
        vref,
        fuel,
        Ghost(t),
        Ghost(s),
        Ghost(None),
        Ghost(None),
    ) {
        Ok(x) => x,
        Err(e) => {
            proof {
                lemma_extends_trans(b0, b1, *batch);
            }
            return Err(e);
        },
    };
    let ghost b2 = *batch;
    let ghost u = g@.0;
    let ghost w = g@.1;
    match ins {
        Insert::Done(id) => {
            proof {
                lemma_extends_trans(b0, b1, b2);
                if good {
                    lemma_tree_of(b2.pages(), ps, id, u);
                    lemma_put_composed(b0, b1, b2, t, s);
                    assert forall|x: PageId| #[trigger] ohas(Some(u), x) implies ohas(o, x) || fresh(
                        b0,
                        b2,
                        x,
                    ) by {
                        assert(u.has(x));
                    }
                    assert forall|k: Seq<u8>| #[trigger] ofind(Some(u), k) == (if k == key@ {
                        Some(value@)
                    } else {
                        ofind(o, k)
                    }) by {
                        assert(u.find(k) == u.find(k));
                    }
                }
            }
            Ok(id)
        },
        Insert::Split(left, sep, right) => {
            let ghost sv = sep@;
            if sep.len() > 65536 {
                proof {
                    lemma_extends_trans(b0, b1, b2);
                }
                return Err(Error::corrupted(Some(root), "node does not fit its page"));
            }
            let mut entries: Vec<(Vec<u8>, PageId)> = Vec::new();
            entries.push((sep, right));
            proof {
                assert(branch_view(entries@) =~= seq![(sv, right)]);
                lemma_branch_len_one((sv, right));
                b2.lemma_facts();
            }
            let node = Node::Branch { first_child: left, entries };
            match write_node(batch, None, &node) {
                Ok(id) => {
                    proof {
                        lemma_extends_trans(b0, b1, b2);
                        lemma_extends_trans(b0, b2, *batch);
                        if good {
                            lemma_put_composed(b0, b1, b2, t, s);
                            assert(unspared(b2, u)) by {
                                assert forall|x: PageId| #[trigger] u.has(x) implies !b2.spare(x) by {
                                    lemma_put_unspared(b0, b1, b2, t, s, x);
                                }
                            }
                            assert(unspared(b2, w)) by {
                                assert forall|x: PageId| #[trigger] w.has(x) implies !b2.spare(x) by {
                                    lemma_put_unspared(b0, b1, b2, t, s, x);
                                }
                            }
                            lemma_new_root(b2, *batch, id, sv, u, w);
                            lemma_root_composed(b0, b2, *batch, o, id, sv, u, w, key@, value@);
                        }
                    }
                    Ok(id)
                },
                Err(e) => {
                    proof {
                        lemma_extends_trans(b0, b1, b2);
                        lemma_extends_trans(b0, b2, *batch);
                    }
                    Err(e)
                },
            }
        },
    }
}

proof fn lemma_put_unspared<'p, S: Storage>(
    a: WriteBatch<'p, S>,
    b: WriteBatch<'p, S>,
    c: WriteBatch<'p, S>,
    t: Tree,
    s: Stored,
    x: PageId,
)
    requires
        a.free_ok(),
        extends(a, b),
        extends(b, c),
        extends(a, c),
        forall|x: PageId| #[trigger] t.has(x) ==> !a.spare(x),
        forall|x: PageId| #[trigger] s.has(x) ==> fresh(a, b, x),
        t.has(x) || s.has(x) || fresh(b, c, x),
    ensures
        !c.spare(x),
{
    if c.spare(x) {
        assert(b.spare(x));
        assert(a.spare(x));
        if s.has(x) {
            assert(fresh(a, b, x));
        }
    }
}

/// Writing the value and editing the tree, seen as one edit.
proof fn lemma_put_composed<'p, S: Storage>(
    a: WriteBatch<'p, S>,
    b: WriteBatch<'p, S>,
    c: WriteBatch<'p, S>,
    t: Tree,
    s: Stored,
)
    requires
        a.wf(),
        extends(a, b),
        extends(b, c),
        forall|x: PageId| #[trigger] a.pages().contains_key(x) && !fresh(a, b, x) ==> b.pages().contains_key(
            x,
        ) && b.pages()[x] == a.pages()[x],
        only_tree(b, c, t),
    ensures
        only_otree(a, c, Some(t)),
{
    lemma_extends_trans(a, b, c);
    assert forall|x: PageId| #[trigger]
        a.pages().contains_key(x) && !(ohas(Some(t), x) && a.own(x)) && !fresh(a, c, x) implies
        c.pages().contains_key(x) && c.pages()[x] == a.pages()[x] by {
        assert(!fresh(a, b, x) && !fresh(b, c, x));
        assert(b.pages().contains_key(x));
        assert(!(t.has(x) && b.own(x)));
    }
}

/// The first leaf of a tree.
#[verifier::rlimit(40)]
proof fn lemma_first_leaf<'p, S: Storage>(
    a: WriteBatch<'p, S>,
    b: WriteBatch<'p, S>,
    c: WriteBatch<'p, S>,
    id: PageId,
    key: Seq<u8>,
    s: Stored,
)
    requires
        a.wf(),
        b.wf(),
        a.free_ok(),
        extends(a, b),
        extends(b, c),
        extends(a, c),
        0 < key.len() <= max_key(a.size()),
        s.ok(a.size()),
        s.holds(b.pages(), a.size()),
        forall|x: PageId| #[trigger] s.has(x) ==> fresh(a, b, x),
        forall|x: PageId| #[trigger] a.pages().contains_key(x) && !fresh(a, b, x) ==> b.pages().contains_key(
            x,
        ) && b.pages()[x] == a.pages()[x],
        fresh(b, c, id),
        id >= 2,
        node_len(NodeV::Leaf(entry_cells(seq![(key, s)]))) <= a.size(),
        c.pages() == b.pages().insert(
            id,
            crate::node::node_bytes(NodeV::Leaf(entry_cells(seq![(key, s)])), a.size() as nat),
        ),
    ensures
        edited(a, c, NIL_PAGE, id),
        finds_set(None, tree_of(c.pages(), a.size(), id), key, Some(s.bytes())),
{
    let ps = a.size();
    let e = seq![(key, s)];
    let t = Tree::Leaf(id, e);
    a.lemma_facts();
    b.lemma_facts();
    lemma_extends_trans(a, b, c);
    lemma_cells_sorted(e);
    lemma_written_node(NodeV::Leaf(entry_cells(e)), ps);
    assert(b.spare(id));
    assert(!s.has(id)) by {
        if s.has(id) {
            assert(fresh(a, b, id));
        }
    }
    assert forall|x: PageId| #[trigger] s.has(x) && b.pages().contains_key(x) implies
        c.pages().contains_key(x) && crate::tree::same_page(b.pages()[x], c.pages()[x]) by {
        assert(x != id);
    }
    crate::tree::lemma_stored_frame(s, b.pages(), c.pages(), ps);
    assert(e[0] == (key, s));
    assert(t.holds(c.pages(), ps)) by {
        assert forall|i: int| 0 <= i < e.len() implies (#[trigger] e[i]).1.holds(c.pages(), ps) by {
            assert(i == 0);
        }
    }
    assert(crate::tree::entries_ok(id, e, ps, None, None)) by {
        assert forall|i: int| 0 <= i < e.len() implies 0 < (#[trigger] e[i]).0.len() <= max_key(ps)
            && crate::tree::in_range(e[i].0, None, None) && e[i].1.ok(ps) && !e[i].1.has(id) by {
            assert(i == 0);
        }
    }
    assert(t.ok(ps, None, None));
    lemma_tree_of(c.pages(), ps, id, t);
    assert forall|x: PageId| #[trigger] ohas(Some(t), x) implies fresh(a, c, x) by {
        if x != id {
            let i = choose|i: int| 0 <= i < e.len() && (#[trigger] e[i]).1.has(x);
            assert(i == 0);
            assert(s.has(x));
        }
    }
    assert forall|x: PageId| #[trigger] a.pages().contains_key(x) && !fresh(a, c, x) implies
        c.pages().contains_key(x) && c.pages()[x] == a.pages()[x] by {
        assert(!fresh(a, b, x) && !fresh(b, c, x));
        assert(b.pages().contains_key(x));
    }
    assert forall|k: Seq<u8>| #[trigger] ofind(Some(t), k) == (if k == key {
        Some(s.bytes())
    } else {
        ofind(None, k)
    }) by {
        if k == key {
            lemma_entries_find(e, k, 0);
        } else {
            assert forall|i: int| 0 <= i < e.len() implies (#[trigger] e[i]).0 != k by {
                assert(i == 0);
            }
        }
    }
}

/// A root split, seen as one edit.
#[verifier::rlimit(40)]
proof fn lemma_root_composed<'p, S: Storage>(
    a: WriteBatch<'p, S>,
    b: WriteBatch<'p, S>,
    c: WriteBatch<'p, S>,
    o: Option<Tree>,
    id: PageId,
    sep: Seq<u8>,
    u: Tree,
    w: Tree,
    key: Seq<u8>,
    value: Seq<u8>,
)
    requires
        a.wf(),
        extends(a, b),
        extends(b, c),
        extends(a, c),
        o is Some,
        only_otree(a, b, o),
        fresh(b, c, id),
        forall|x: PageId|
            x != id && b.pages().contains_key(x) ==> #[trigger] c.pages().contains_key(x) && c.pages()[x]
                == b.pages()[x],
        tree_at(c.pages(), a.size(), id, root_over(id, sep, u, w)),
        forall|x: PageId| #[trigger] u.has(x) ==> ohas(o, x) || fresh(a, b, x),
        forall|x: PageId| #[trigger] w.has(x) ==> ohas(o, x) || fresh(a, b, x),
        forall|x: PageId| #[trigger]
            root_over(id, sep, u, w).has(x) ==> x == id || u.has(x) || w.has(x),
        forall|k: Seq<u8>| #[trigger]
            root_over(id, sep, u, w).find(k) == (if lex_lt(k, sep) {
                u.find(k)
            } else {
                w.find(k)
            }),
        forall|k: Seq<u8>|
            (if lex_lt(k, sep) {
                #[trigger] u.find(k)
            } else {
                w.find(k)
            }) == (if k == key {
                Some(value)
            } else {
                ofind(o, k)
            }),
    ensures
        ({
            let p = tree_of(c.pages(), a.size(), id);
            &&& id != NIL_PAGE
            &&& sound_root(c.pages(), a.size(), id)
            &&& only_otree(a, c, o)
            &&& forall|x: PageId| #[trigger] ohas(p, x) ==> ohas(o, x) || fresh(a, c, x)
            &&& finds_set(o, p, key, Some(value))
        }),
{
    let t = root_over(id, sep, u, w);
    lemma_tree_of(c.pages(), a.size(), id, t);
    lemma_extends_trans(a, b, c);
    assert forall|x: PageId| #[trigger]
        a.pages().contains_key(x) && !(ohas(o, x) && a.own(x)) && !fresh(a, c, x) implies
        c.pages().contains_key(x) && c.pages()[x] == a.pages()[x] by {
        assert(!fresh(a, b, x) && !fresh(b, c, x));
        assert(b.pages().contains_key(x));
        assert(c.pages().contains_key(x));
    }
    assert forall|x: PageId| #[trigger] ohas(Some(t), x) implies ohas(o, x) || fresh(a, c, x) by {
        assert(t.has(x));
        if x == id {
            assert(fresh(b, c, x));
        }
    }
    assert forall|k: Seq<u8>| #[trigger] ofind(Some(t), k) == (if k == key {
        Some(value)
    } else {
        ofind(o, k)
    }) by {
        assert(t.find(k) == t.find(k));
        assert(u.find(k) == u.find(k));
    }
}

// ---------------------------------------------------------------------
// Deleting
// ---------------------------------------------------------------------

/// What a delete left of a node.
pub enum Delete {
    NotFound,
    Updated(PageId),
    Emptied,
}

/// The stand-in for no value at all.
pub open spec fn no_value() -> Stored {
    Stored::Inline(Seq::empty())
}

/// What a delete owes its caller.
pub open spec fn delete_done<'p, S: Storage>(
    a: WriteBatch<'p, S>,
    b: WriteBatch<'p, S>,
    t: Tree,
    key: Seq<u8>,
    r: Delete,
    u: Tree,
    lo: Option<Seq<u8>>,
    hi: Option<Seq<u8>>,
) -> bool {
    let ps = a.size();
    match r {
        Delete::NotFound => t.find(key) is None && b == a,
        Delete::Updated(id) => {
            &&& t.find(key) is Some
            &&& only_tree(a, b, t)
            &&& u.root() == id
            &&& u.ok(ps, lo, hi)
            &&& u.holds(b.pages(), ps)
            &&& forall|x: PageId| #[trigger] u.has(x) ==> t.has(x) || fresh(a, b, x)
            &&& forall|k: Seq<u8>| #[trigger]
                u.find(k) == (if k == key {
                    None
                } else {
                    t.find(k)
                })
        },
        Delete::Emptied => {
            &&& t.find(key) is Some
            &&& only_tree(a, b, t)
            &&& forall|k: Seq<u8>| k != key ==> (#[trigger] t.find(k)) is None
        },
    }
}

/// Write a branch that fits its page.
fn write_branch<'p, S: Storage>(
    batch: &mut WriteBatch<'p, S>,
    page: PageId,
    first_child: PageId,
    entries: Vec<(Vec<u8>, PageId)>,
    Ghost(seps): Ghost<Seq<Seq<u8>>>,
    Ghost(kids): Ghost<Seq<Tree>>,
    Ghost(lo): Ghost<Option<Seq<u8>>>,
    Ghost(hi): Ghost<Option<Seq<u8>>>,
) -> (r: Result<(PageId, Ghost<Tree>)>)
    requires
        old(batch).wf(),
        crate::node::branch_len(branch_view(entries@)) <= NODE_BOUND - 24,
    ensures
        final(batch).next() <= old(batch).next() + 1,
        extends(*old(batch), *final(batch)),
        *final(final(batch).pager) == *final(old(batch).pager),
        branch_ready(*old(batch), page, seps, kids, lo, hi) && first_child == kids[0].root()
            && branch_view(entries@) == kid_cells(seps, kids) && crate::node::branch_len(
            kid_cells(seps, kids),
        ) <= old(batch).size() - 24 ==> match r {
            Ok((id, g)) => only_page(*old(batch), *final(batch), page) && insert_done(
                *old(batch),
                *final(batch),
                Tree::Branch(page, seps, kids),
                page,
                Insert::Done(id),
                g@,
                g@,
                lo,
                hi,
            ),
            Err(_) => final(batch).next() >= crate::page::MAX_PAGES,
        },
{
    let ghost b0 = *batch;
    let ghost ps = batch.size();
    let ghost whole = Tree::Branch(page, seps, kids);
    let ghost cells = branch_view(entries@);
    let ghost good = branch_ready(b0, page, seps, kids, lo, hi) && first_child == kids[0].root()
        && cells == kid_cells(seps, kids) && crate::node::branch_len(kid_cells(seps, kids)) <= ps
        - 24;
    proof {
        b0.lemma_facts();
    }
    let node = Node::Branch { first_child, entries };
    let id: PageId = match write_node(batch, Some(page), &node) {
        Ok(id) => id,
        Err(x) => {
            return Err(x);
        },
    };
    let ghost u = Tree::Branch(id, seps, kids);
    proof {
        if good {
            let nsep = seps.len() as int;
            lemma_branch_node(seps, kids);
            lemma_written_node(NodeV::Branch(first_child, cells), ps);
            assert(seps.subrange(0, nsep) =~= seps);
            assert(kids.subrange(0, nsep + 1) =~= kids);
            assert(id == page || fresh(b0, *batch, id));
            lemma_one_written(b0, *batch, page, id);
            lemma_branch_part(b0, *batch, page, id, seps, kids, 0, nsep, lo, hi);
            assert forall|x: PageId| #[trigger] u.has(x) implies whole.has(x) || fresh(b0, *batch, x) by {
                lemma_branch_has_sub(page, id, seps, kids, seps, 0, nsep + 1, x);
            }
            assert forall|k: Seq<u8>| #[trigger] u.find(k) == whole.find(k) by {}
        }
    }
    Ok((id, Ghost(u)))
}

/// Two neighbouring children become one: the branch is ready to be written.
#[verifier::rlimit(80)]
proof fn lemma_join<'p, S: Storage>(
    a: WriteBatch<'p, S>,
    b: WriteBatch<'p, S>,
    page: PageId,
    seps: Seq<Seq<u8>>,
    kids: Seq<Tree>,
    j: int,
    m: Tree,
    lp: PageId,
    lo: Option<Seq<u8>>,
    hi: Option<Seq<u8>>,
)
    requires
        a.wf(),
        extends(a, b),
        branch_ready(a, page, seps, kids, lo, hi),
        0 <= j < seps.len(),
        only_page(a, b, lp),
        kids[j].has(lp) || kids[j + 1].has(lp),
        m.ok(a.size(), kid_lo(seps, lo, j), kid_hi(seps, hi, j + 1)),
        m.holds(b.pages(), a.size()),
        forall|x: PageId| #[trigger]
            m.has(x) ==> kids[j].has(x) || kids[j + 1].has(x) || fresh(a, b, x),
    ensures
        branch_ready(b, page, seps.remove(j), kids.update(j, m).remove(j + 1), lo, hi),
{
    let ps = a.size();
    let z = seps.remove(j);
    let k = kids.update(j, m).remove(j + 1);
    a.lemma_facts();
    crate::tree::lemma_sorted_remove(seps, j);
    assert forall|i: int| 0 <= i < z.len() implies #[trigger] z[i] == seps[if i < j {
        i
    } else {
        i + 1
    }] by {}
    assert forall|i: int| 0 <= i < k.len() implies #[trigger] k[i] == (if i < j {
        kids[i]
    } else if i == j {
        m
    } else {
        kids[i + 1]
    }) by {}
    assert forall|i: int| 0 <= i < kids.len() && i != j && i != j + 1 implies (
    #[trigger] kids[i]).holds(b.pages(), ps) && unspared(b, kids[i]) && crate::tree::disjoint(
        kids[i],
        m,
    ) && crate::tree::disjoint(m, kids[i]) by {
        let d = kids[i];
        assert(unspared(a, d));
        if i < j {
            assert(crate::tree::disjoint(kids[i], kids[j]));
            assert(crate::tree::disjoint(kids[i], kids[j + 1]));
        } else {
            assert(crate::tree::disjoint(kids[j], kids[i]));
            assert(crate::tree::disjoint(kids[j + 1], kids[i]));
        }
        assert(!d.has(lp));
        lemma_tree_kept(a, b, lp, d);
        assert forall|x: PageId| #[trigger] d.has(x) implies !b.spare(x) && !m.has(x) by {
            assert(!a.spare(x));
            assert(!fresh(a, b, x));
        }
    }
    assert(!fresh(a, b, page));
    assert(!m.has(page)) by {
        assert(!kids[j].has(page) && !kids[j + 1].has(page));
    }
    assert(unspared(b, m)) by {
        assert forall|x: PageId| #[trigger] m.has(x) implies !b.spare(x) by {
            assert(unspared(a, kids[j]) && unspared(a, kids[j + 1]));
            if fresh(a, b, x) {
            } else {
                assert(!a.spare(x));
            }
        }
    }
    assert forall|i: int| 0 <= i < k.len() implies (#[trigger] k[i]).ok(
        ps,
        kid_lo(z, lo, i),
        kid_hi(z, hi, i),
    ) && !k[i].has(page) && k[i].holds(b.pages(), ps) && unspared(b, k[i]) by {
        if i < j {
            assert(kids[i].ok(ps, kid_lo(seps, lo, i), kid_hi(seps, hi, i)));
            assert(kid_lo(z, lo, i) == kid_lo(seps, lo, i));
            assert(kid_hi(z, hi, i) == kid_hi(seps, hi, i));
        } else if i == j {
            assert(kid_lo(z, lo, i) == kid_lo(seps, lo, j));
            assert(kid_hi(z, hi, i) == kid_hi(seps, hi, j + 1));
        } else {
            assert(kids[i + 1].ok(ps, kid_lo(seps, lo, i + 1), kid_hi(seps, hi, i + 1)));
            assert(kid_lo(z, lo, i) == kid_lo(seps, lo, i + 1));
            assert(kid_hi(z, hi, i) == kid_hi(seps, hi, i + 1));
        }
    }
    assert forall|i: int, n: int| 0 <= i < n < k.len() implies crate::tree::disjoint(
        #[trigger] k[i],
        #[trigger] k[n],
    ) by {
        if i == j {
            assert(crate::tree::disjoint(m, kids[n + 1]));
        } else if n == j {
            assert(crate::tree::disjoint(kids[i], m));
        } else {
            let x = if i < j {
                i
            } else {
                i + 1
            };
            let y = if n < j {
                n
            } else {
                n + 1
            };
            assert(crate::tree::disjoint(kids[x], kids[y]));
        }
    }
}

/// What a branch finds once two neighbouring children became one.
proof fn lemma_join_find(
    page: PageId,
    seps: Seq<Seq<u8>>,
    kids: Seq<Tree>,
    j: int,
    m: Tree,
    q: Seq<u8>,
)
    requires
        sorted(seps),
        kids.len() == seps.len() + 1,
        0 <= j < seps.len(),
    ensures
        Tree::Branch(page, seps.remove(j), kids.update(j, m).remove(j + 1)).find(q) == (if route(
            seps,
            q,
        ) == j || route(seps, q) == j + 1 {
            m.find(q)
        } else {
            kids[route(seps, q)].find(q)
        }),
        (route(seps, q) == j ==> lex_lt(q, seps[j])),
        (route(seps, q) == j + 1 ==> lex_le(seps[j], q)),
{
    let z = seps.remove(j);
    let k = kids.update(j, m).remove(j + 1);
    let whole = Tree::Branch(page, z, k);
    crate::tree::lemma_route_remove(seps, j, q);
    lemma_route(seps, q);
    let r = route(z, q);
    assert(whole.find(q) == k[r].find(q));
}

proof fn lemma_join_has(
    page: PageId,
    seps: Seq<Seq<u8>>,
    kids: Seq<Tree>,
    j: int,
    m: Tree,
    z: Seq<Seq<u8>>,
)
    requires
        0 <= j < kids.len() - 1,
    ensures
        forall|x: PageId| #[trigger]
            Tree::Branch(page, z, kids.update(j, m).remove(j + 1)).has(x) ==> m.has(x)
                || Tree::Branch(page, seps, kids).has(x),
{
    let t = Tree::Branch(page, seps, kids);
    let k = kids.update(j, m).remove(j + 1);
    assert forall|x: PageId| #[trigger] Tree::Branch(page, z, k).has(x) implies m.has(x) || t.has(x) by {
        if x == page {
            assert(t.has(page));
        } else {
            let i = choose|i: int| 0 <= i < k.len() && (#[trigger] k[i]).has(x);
            if i < j {
                assert(k[i] == kids[i]);
                crate::tree::lemma_branch_has(page, seps, kids, i, x);
            } else if i == j {
                assert(k[i] == m);
            } else {
                assert(k[i] == kids[i + 1]);
                crate::tree::lemma_branch_has(page, seps, kids, i + 1, x);
            }
        }
    }
}

proof fn lemma_join_cells(seps: Seq<Seq<u8>>, kids: Seq<Tree>, j: int, m: Tree)
    requires
        kids.len() == seps.len() + 1,
        0 <= j < seps.len(),
    ensures
        kid_cells(seps.remove(j), kids.update(j, m).remove(j + 1)) == kid_cells(
            seps,
            kids.update(j, m),
        ).remove(j),
        crate::node::branch_len(kid_cells(seps.remove(j), kids.update(j, m).remove(j + 1)))
            <= crate::node::branch_len(kid_cells(seps, kids)),
{
    let z = seps.remove(j);
    let k = kids.update(j, m).remove(j + 1);
    let base = kid_cells(seps, kids.update(j, m));
    let cells = kid_cells(z, k);
    assert(cells =~= base.remove(j)) by {
        assert forall|i: int| 0 <= i < cells.len() implies cells[i] == base.remove(j)[i] by {
            if i < j {
                assert(z[i] == seps[i]);
                assert(k[i + 1] == kids.update(j, m)[i + 1]);
            } else {
                assert(z[i] == seps[i + 1]);
                assert(k[i + 1] == kids.update(j, m)[i + 2]);
            }
        }
    }
    crate::tree::lemma_branch_len_keys(base, kid_cells(seps, kids));
    assert(base.remove(j) =~= base.take(j) + base.skip(j + 1));
    crate::node::lemma_branch_len_add(base.take(j), base.skip(j + 1));
    lemma_branch_len_cut(base, j + 1);
    lemma_branch_len_take(base, j);
}

/// Merging two neighbouring leaves.
#[verifier::rlimit(60)]
proof fn lemma_merge_leaves(
    l: PageId,
    r: PageId,
    id: PageId,
    a: Seq<Entry>,
    b: Seq<Entry>,
    ps: u32,
    lo: Option<Seq<u8>>,
    sep: Seq<u8>,
    hi: Option<Seq<u8>>,
)
    requires
        Tree::Leaf(l, a).ok(ps, lo, Some(sep)),
        Tree::Leaf(r, b).ok(ps, Some(sep), hi),
        crate::tree::disjoint(Tree::Leaf(l, a), Tree::Leaf(r, b)),
        id == l || (!Tree::Leaf(l, a).has(id) && !Tree::Leaf(r, b).has(id)),
        lo matches Some(x) ==> lex_le(x, sep),
        hi matches Some(x) ==> lex_lt(sep, x),
    ensures
        crate::tree::entries_ok(id, a + b, ps, lo, hi),
        forall|k: Seq<u8>| #[trigger]
            entries_find(a + b, k) == (if lex_lt(k, sep) {
                entries_find(a, k)
            } else {
                entries_find(b, k)
            }),
        forall|x: PageId| #[trigger]
            Tree::Leaf(id, a + b).has(x) ==> x == id || Tree::Leaf(l, a).has(x) || Tree::Leaf(
                r,
                b,
            ).has(x),
{
    let c = a + b;
    let ta = Tree::Leaf(l, a);
    let tb = Tree::Leaf(r, b);
    let ka = entry_keys(a);
    let kb = entry_keys(b);
    let kc = entry_keys(c);
    assert forall|i: int| 0 <= i < c.len() implies #[trigger] c[i] == (if i < a.len() {
        a[i]
    } else {
        b[i - a.len()]
    }) by {}
    assert(sorted(kc)) by {
        assert forall|i: int, j: int| 0 <= i < j < kc.len() implies lex_lt(
            #[trigger] kc[i],
            #[trigger] kc[j],
        ) by {
            assert(kc[i] == c[i].0 && kc[j] == c[j].0);
            if j < a.len() {
                assert(lex_lt(ka[i], ka[j]));
            } else if i >= a.len() {
                assert(lex_lt(kb[i - a.len()], kb[j - a.len()]));
            } else {
                let x = a[i].0;
                let y = b[j - a.len()].0;
                assert(crate::tree::in_range(x, lo, Some(sep)));
                assert(crate::tree::in_range(y, Some(sep), hi));
                if sep != y {
                    lemma_lex_trans(x, sep, y);
                }
            }
        }
    }
    assert forall|i: int| 0 <= i < c.len() implies 0 < (#[trigger] c[i]).0.len() <= max_key(ps)
        && crate::tree::in_range(c[i].0, lo, hi) && c[i].1.ok(ps) && !c[i].1.has(id) by {
        if i < a.len() {
            let g = a[i];
            assert(crate::tree::in_range(g.0, lo, Some(sep)));
            if hi is Some {
                lemma_lex_trans(g.0, sep, hi->0);
            }
            if g.1.has(id) {
                crate::tree::lemma_leaf_has(l, a, i, id);
            }
        } else {
            let g = b[i - a.len()];
            assert(crate::tree::in_range(g.0, Some(sep), hi));
            if lo is Some && lo->0 != sep && sep != g.0 {
                lemma_lex_trans(lo->0, sep, g.0);
            }
            if g.1.has(id) {
                crate::tree::lemma_leaf_has(r, b, i - a.len(), id);
                if id == l {
                    assert(ta.has(l));
                }
            }
        }
    }
    assert forall|i: int, j: int| 0 <= i < j < c.len() implies crate::tree::values_disjoint(
        (#[trigger] c[i]).1,
        (#[trigger] c[j]).1,
    ) by {
        if j < a.len() {
            assert(crate::tree::values_disjoint(a[i].1, a[j].1));
        } else if i >= a.len() {
            assert(crate::tree::values_disjoint(b[i - a.len()].1, b[j - a.len()].1));
        } else {
            let v = a[i].1;
            let w = b[j - a.len()].1;
            assert forall|x: PageId| !(#[trigger] v.has(x) && #[trigger] w.has(x)) by {
                if v.has(x) && w.has(x) {
                    crate::tree::lemma_leaf_has(l, a, i, x);
                    crate::tree::lemma_leaf_has(r, b, j - a.len(), x);
                }
            }
        }
    }
    assert forall|k: Seq<u8>| #[trigger] entries_find(c, k) == (if lex_lt(k, sep) {
        entries_find(a, k)
    } else {
        entries_find(b, k)
    }) by {
        if exists|i: int| 0 <= i < c.len() && (#[trigger] c[i]).0 == k {
            let i = crate::tree::entry_index(c, k);
            assert(c[i].0 == k);
            lemma_entries_find(c, k, i);
            if i < a.len() {
                assert(a[i].0 == k);
                lemma_entries_find(a, k, i);
            } else {
                let n = i - a.len();
                assert(b[n].0 == k);
                lemma_entries_find(b, k, n);
                crate::tree::lemma_lex_facts2(sep, k);
            }
        } else {
            assert forall|i: int| 0 <= i < a.len() implies (#[trigger] a[i]).0 != k by {
                assert(c[i].0 != k);
            }
            assert forall|i: int| 0 <= i < b.len() implies (#[trigger] b[i]).0 != k by {
                assert(c[i + a.len()].0 != k);
            }
        }
    }
    assert forall|x: PageId| #[trigger] Tree::Leaf(id, c).has(x) implies x == id || ta.has(x)
        || tb.has(x) by {
        if x != id {
            let i = choose|i: int| 0 <= i < c.len() && (#[trigger] c[i]).1.has(x);
            if i < a.len() {
                crate::tree::lemma_leaf_has(l, a, i, x);
            } else {
                crate::tree::lemma_leaf_has(r, b, i - a.len(), x);
            }
        }
    }
}

/// Merging two neighbouring branches: the parent's separator is exactly the
/// key the right node's first child needs once it joins the left node.
#[verifier::rlimit(80)]
proof fn lemma_merge_branches(
    l: PageId,
    r: PageId,
    id: PageId,
    sa: Seq<Seq<u8>>,
    ka: Seq<Tree>,
    sb: Seq<Seq<u8>>,
    kb: Seq<Tree>,
    ps: u32,
    lo: Option<Seq<u8>>,
    sep: Seq<u8>,
    hi: Option<Seq<u8>>,
)
    requires
        Tree::Branch(l, sa, ka).ok(ps, lo, Some(sep)),
        Tree::Branch(r, sb, kb).ok(ps, Some(sep), hi),
        crate::tree::disjoint(Tree::Branch(l, sa, ka), Tree::Branch(r, sb, kb)),
        id == l || (!Tree::Branch(l, sa, ka).has(id) && !Tree::Branch(r, sb, kb).has(id)),
        crate::tree::above(sep, lo),
        hi matches Some(x) ==> lex_lt(sep, x),
        sep.len() <= max_key(ps),
    ensures
        crate::tree::seps_ok(sa + seq![sep] + sb, ps, lo, hi),
        forall|i: int|
            0 <= i < (ka + kb).len() ==> (#[trigger] (ka + kb)[i]).ok(
                ps,
                kid_lo(sa + seq![sep] + sb, lo, i),
                kid_hi(sa + seq![sep] + sb, hi, i),
            ) && !(ka + kb)[i].has(id),
        forall|i: int, j: int|
            0 <= i < j < (ka + kb).len() ==> crate::tree::disjoint(
                #[trigger] (ka + kb)[i],
                #[trigger] (ka + kb)[j],
            ),
{
    let z = sa + seq![sep] + sb;
    let k = ka + kb;
    let n = sa.len() as int;
    let ta = Tree::Branch(l, sa, ka);
    let tb = Tree::Branch(r, sb, kb);
    assert forall|i: int| 0 <= i < z.len() implies #[trigger] z[i] == (if i < n {
        sa[i]
    } else if i == n {
        sep
    } else {
        sb[i - n - 1]
    }) by {}
    assert forall|i: int| 0 <= i < k.len() implies #[trigger] k[i] == (if i <= n {
        ka[i]
    } else {
        kb[i - n - 1]
    }) by {}
    assert forall|i: int| 0 <= i < z.len() - 1 implies lex_lt(z[i], #[trigger] z[i + 1]) by {
        if i + 1 < n {
            assert(lex_lt(sa[i], sa[i + 1]));
        } else if i + 1 == n {
            assert(crate::tree::in_range(sa[i], lo, Some(sep)));
        } else if i == n {
            assert(crate::tree::above(sb[0], Some(sep)));
        } else {
            assert(lex_lt(sb[i - n - 1], sb[i - n]));
        }
    }
    crate::node::lemma_adjacent_sorted(z);
    assert forall|i: int| 0 <= i < z.len() implies (#[trigger] z[i]).len() <= max_key(ps)
        && crate::tree::in_range(z[i], lo, hi) && crate::tree::above(z[i], lo) by {
        if i < n {
            assert(crate::tree::in_range(sa[i], lo, Some(sep)));
            if hi is Some {
                lemma_lex_trans(sa[i], sep, hi->0);
            }
        } else if i > n {
            let y = sb[i - n - 1];
            assert(crate::tree::in_range(y, Some(sep), hi));
            assert(crate::tree::above(y, Some(sep)));
            if lo is Some {
                lemma_lex_trans(lo->0, sep, y);
            }
        }
    }
    assert forall|i: int| 0 <= i < k.len() implies (#[trigger] k[i]).ok(
        ps,
        kid_lo(z, lo, i),
        kid_hi(z, hi, i),
    ) && !k[i].has(id) by {
        if i <= n {
            assert(ka[i].ok(ps, kid_lo(sa, lo, i), kid_hi(sa, Some(sep), i)));
            assert(kid_lo(z, lo, i) == kid_lo(sa, lo, i));
            assert(kid_hi(z, hi, i) == kid_hi(sa, Some(sep), i));
            if ka[i].has(id) {
                crate::tree::lemma_branch_has(l, sa, ka, i, id);
            }
        } else {
            let j = i - n - 1;
            assert(kb[j].ok(ps, kid_lo(sb, Some(sep), j), kid_hi(sb, hi, j)));
            assert(kid_lo(z, lo, i) == kid_lo(sb, Some(sep), j));
            assert(kid_hi(z, hi, i) == kid_hi(sb, hi, j));
            if kb[j].has(id) {
                crate::tree::lemma_branch_has(r, sb, kb, j, id);
                if id == l {
                    assert(ta.has(l));
                }
            }
        }
    }
    assert forall|i: int, j: int| 0 <= i < j < k.len() implies crate::tree::disjoint(
        #[trigger] k[i],
        #[trigger] k[j],
    ) by {
        if j <= n {
            assert(crate::tree::disjoint(ka[i], ka[j]));
        } else if i > n {
            assert(crate::tree::disjoint(kb[i - n - 1], kb[j - n - 1]));
        } else {
            let v = ka[i];
            let w = kb[j - n - 1];
            assert forall|x: PageId| !(#[trigger] v.has(x) && #[trigger] w.has(x)) by {
                if v.has(x) && w.has(x) {
                    crate::tree::lemma_branch_has(l, sa, ka, i, x);
                    crate::tree::lemma_branch_has(r, sb, kb, j - n - 1, x);
                }
            }
        }
    }
}

/// What merged branches find, and which pages they use.
proof fn lemma_merge_branches_find(
    l: PageId,
    r: PageId,
    id: PageId,
    sa: Seq<Seq<u8>>,
    ka: Seq<Tree>,
    sb: Seq<Seq<u8>>,
    kb: Seq<Tree>,
    sep: Seq<u8>,
)
    requires
        ka.len() == sa.len() + 1,
        kb.len() == sb.len() + 1,
        sorted(sa + seq![sep] + sb),
    ensures
        forall|k: Seq<u8>| #[trigger]
            Tree::Branch(id, sa + seq![sep] + sb, ka + kb).find(k) == (if lex_lt(k, sep) {
                Tree::Branch(l, sa, ka).find(k)
            } else {
                Tree::Branch(r, sb, kb).find(k)
            }),
        forall|x: PageId| #[trigger]
            Tree::Branch(id, sa + seq![sep] + sb, ka + kb).has(x) ==> x == id || Tree::Branch(
                l,
                sa,
                ka,
            ).has(x) || Tree::Branch(r, sb, kb).has(x),
{
    let z = sa + seq![sep] + sb;
    let kk = ka + kb;
    let n = sa.len() as int;
    let t = Tree::Branch(id, z, kk);
    let ta = Tree::Branch(l, sa, ka);
    let tb = Tree::Branch(r, sb, kb);
    assert forall|k: Seq<u8>| #[trigger] t.find(k) == (if lex_lt(k, sep) {
        ta.find(k)
    } else {
        tb.find(k)
    }) by {
        lemma_kids_cut(id, l, r, z, kk, n, k);
        assert(z[n] == sep);
        assert(z.subrange(0, n) =~= sa);
        assert(kk.subrange(0, n + 1) =~= ka);
        assert(z.subrange(n + 1, z.len() as int) =~= sb);
        assert(kk.subrange(n + 1, kk.len() as int) =~= kb);
    }
    assert forall|x: PageId| #[trigger] t.has(x) implies x == id || ta.has(x) || tb.has(x) by {
        if x != id {
            let i = choose|i: int| 0 <= i < kk.len() && (#[trigger] kk[i]).has(x);
            if i <= n {
                assert(kk[i] == ka[i]);
                crate::tree::lemma_branch_has(l, sa, ka, i, x);
            } else {
                assert(kk[i] == kb[i - n - 1]);
                crate::tree::lemma_branch_has(r, sb, kb, i - n - 1, x);
            }
        }
    }
}

/// Read and decode a node.
fn load<'p, S: Storage>(batch: &WriteBatch<'p, S>, page: PageId) -> (r: Result<Node>)
    requires
        batch.wf(),
    ensures
        match r {
            Ok(n) => batch.pages().contains_key(page) && node_of(batch.pages()[page]) == Some(n@)
                && node_len(n@) <= batch.size() && crate::node::node_sorted(n@),
            Err(_) => batch.reliable() ==> !(batch.pages().contains_key(page) && node_of(
                batch.pages()[page],
            ) is Some),
        },
{
    proof {
        batch.lemma_facts();
    }
    let buf = match batch.read_page(page) {
        Ok(b) => b,
        Err(e) => {
            return Err(e);
        },
    };
    proof {
        crate::node::lemma_node_fits(buf@);
    }
    Node::decode(buf.as_slice(), page)
}

/// The node two neighbours make together, where they are of one kind: the
/// cells of both, and in a branch the separator between them in its place.
pub open spec fn together(l: NodeV, r: NodeV, sep: Seq<u8>) -> Option<NodeV> {
    match (l, r) {
        (NodeV::Leaf(a), NodeV::Leaf(b)) => Some(NodeV::Leaf(a + b)),
        (NodeV::Branch(f, a), NodeV::Branch(g, b)) => Some(
            NodeV::Branch(f, a + seq![(sep, g)] + b),
        ),
        _ => None,
    }
}

/// The left one of the pair that a child is merged with: its right
/// neighbour comes after it, and the last child merges leftward.
pub open spec fn pair_at(n: nat, idx: int) -> int {
    if idx < n {
        idx
    } else {
        idx - 1
    }
}

/// The node that takes the children at `idx` and beside it, where they are
/// merged: the child fills less than a quarter of a page, the two are of one
/// kind, and together they leave an eighth of a page free.
pub open spec fn merger(ps: u32, seps: Seq<Seq<u8>>, kids: Seq<Tree>, idx: int) -> Option<NodeV> {
    let j = pair_at(seps.len(), idx);
    if seps.len() == 0 || node_len(kids[idx].node()) >= ps / 4 {
        None
    } else {
        match together(kids[j].node(), kids[j + 1].node(), seps[j]) {
            Some(n) => if node_len(n) <= ps * 7 / 8 {
                Some(n)
            } else {
                None
            },
            None => None,
        }
    }
}

/// The node two neighbours make together, where they are of one kind.
fn merged(left: Node, right: Node, sep: &Vec<u8>) -> (r: Option<Node>)
    ensures
        match r {
            Some(n) => together(left@, right@, sep@) == Some(n@),
            None => together(left@, right@, sep@) is None,
        },
{
    match (left, right) {
        (Node::Leaf { entries: l }, Node::Leaf { entries: r }) => {
            let mut l: Vec<(Vec<u8>, ValueRef)> = l;
            let mut r: Vec<(Vec<u8>, ValueRef)> = r;
            let ghost a = l@;
            let ghost b = r@;
            l.append(&mut r);
            proof {
                assert(leaf_view(l@) =~= leaf_view(a) + leaf_view(b));
            }
            Some(Node::Leaf { entries: l })
        },
        (
            Node::Branch { first_child: lf, entries: l },
            Node::Branch { first_child: rf, entries: r },
        ) => {
            let mut l: Vec<(Vec<u8>, PageId)> = l;
            let mut r: Vec<(Vec<u8>, PageId)> = r;
            let ghost a = l@;
            let ghost b = r@;
            l.push((copy_vec(sep.as_slice()), rf));
            l.append(&mut r);
            proof {
                assert(branch_view(l@) =~= branch_view(a) + seq![(sep@, rf)] + branch_view(b));
            }
            Some(Node::Branch { first_child: lf, entries: l })
        },
        _ => None,
    }
}

/// The merged tree, once its node is on a page.
#[verifier::rlimit(80)]
proof fn lemma_merge_done<'p, S: Storage>(
    a: WriteBatch<'p, S>,
    b: WriteBatch<'p, S>,
    l: Tree,
    r: Tree,
    sep: Seq<u8>,
    id: PageId,
    n: NodeV,
    lo: Option<Seq<u8>>,
    hi: Option<Seq<u8>>,
) -> (m: Tree)
    requires
        a.wf(),
        a.free_ok(),
        extends(a, b),
        l.ok(a.size(), lo, Some(sep)),
        r.ok(a.size(), Some(sep), hi),
        l.holds(a.pages(), a.size()),
        r.holds(a.pages(), a.size()),
        unspared(a, l),
        unspared(a, r),
        crate::tree::disjoint(l, r),
        crate::tree::above(sep, lo),
        hi matches Some(x) ==> lex_lt(sep, x),
        sep.len() <= max_key(a.size()),
        match (l.node(), r.node()) {
            (NodeV::Leaf(x), NodeV::Leaf(y)) => n == NodeV::Leaf(x + y),
            (NodeV::Branch(f, x), NodeV::Branch(g, y)) => n == NodeV::Branch(
                f,
                x + seq![(sep, g)] + y,
            ),
            _ => false,
        },
        node_len(n) <= a.size(),
        id >= 2,
        if a.own(l.root()) {
            id == l.root()
        } else {
            fresh(a, b, id)
        },
        b.pages() == a.pages().insert(id, crate::node::node_bytes(n, a.size() as nat)),
    ensures
        m.ok(a.size(), lo, hi),
        m.holds(b.pages(), a.size()),
        m.root() == id,
        m.node() == n,
        forall|x: PageId| #[trigger] m.has(x) ==> l.has(x) || r.has(x) || fresh(a, b, x),
        forall|k: Seq<u8>| #[trigger]
            m.find(k) == (if lex_lt(k, sep) {
                l.find(k)
            } else {
                r.find(k)
            }),
        only_page(a, b, l.root()),
{
    let ps = a.size();
    a.lemma_facts();
    lemma_one_written(a, b, l.root(), id);
    assert(l.has(l.root()));
    assert(id == l.root() || (!l.has(id) && !r.has(id)));
    match (l, r) {
        (Tree::Leaf(li, x), Tree::Leaf(ri, y)) => {
            let c = x + y;
            let m = Tree::Leaf(id, c);
            lemma_merge_leaves(li, ri, id, x, y, ps, lo, sep, hi);
            assert(entry_cells(c) =~= entry_cells(x) + entry_cells(y));
            lemma_cells_sorted(c);
            lemma_written_node(n, ps);
            assert forall|i: int| 0 <= i < c.len() implies (#[trigger] c[i]).1.holds(b.pages(), ps) by {
                if i < x.len() {
                    assert(c[i] == x[i]);
                    let v = x[i].1;
                    assert(v.holds(a.pages(), ps));
                    assert forall|q: PageId| #[trigger] v.has(q) implies !a.spare(q) by {
                        crate::tree::lemma_leaf_has(li, x, i, q);
                    }
                    assert(!v.has(li));
                    lemma_value_kept(a, b, li, v);
                } else {
                    let j = i - x.len();
                    assert(c[i] == y[j]);
                    let v = y[j].1;
                    assert(v.holds(a.pages(), ps));
                    assert forall|q: PageId| #[trigger] v.has(q) implies !a.spare(q) by {
                        crate::tree::lemma_leaf_has(ri, y, j, q);
                    }
                    assert(!v.has(li)) by {
                        if v.has(li) {
                            crate::tree::lemma_leaf_has(ri, y, j, li);
                        }
                    }
                    lemma_value_kept(a, b, li, v);
                }
            }
            assert(m.holds(b.pages(), ps));
            assert(m.ok(ps, lo, hi));
            assert forall|q: PageId| #[trigger] m.has(q) implies l.has(q) || r.has(q) || fresh(
                a,
                b,
                q,
            ) by {}
            assert forall|k: Seq<u8>| #[trigger] m.find(k) == (if lex_lt(k, sep) {
                l.find(k)
            } else {
                r.find(k)
            }) by {
                assert(entries_find(c, k) == entries_find(c, k));
            }
            m
        },
        (Tree::Branch(li, sa, ka), Tree::Branch(ri, sb, kb)) => {
            let z = sa + seq![sep] + sb;
            let kk = ka + kb;
            let m = Tree::Branch(id, z, kk);
            lemma_merge_branches(li, ri, id, sa, ka, sb, kb, ps, lo, sep, hi);
            lemma_merge_branches_find(li, ri, id, sa, ka, sb, kb, sep);
            assert(kid_cells(z, kk) =~= kid_cells(sa, ka) + seq![(sep, kb[0].root())] + kid_cells(
                sb,
                kb,
            ));
            assert(kk[0] == ka[0]);
            assert(m.node() == n);
            lemma_branch_node(z, kk);
            lemma_written_node(n, ps);
            assert forall|i: int| 0 <= i < kk.len() implies (#[trigger] kk[i]).holds(b.pages(), ps) by {
                if i < ka.len() {
                    assert(kk[i] == ka[i]);
                    assert(ka[i].holds(a.pages(), ps));
                    assert forall|q: PageId| #[trigger] ka[i].has(q) implies !a.spare(q) by {
                        crate::tree::lemma_branch_has(li, sa, ka, i, q);
                    }
                    assert(!ka[i].has(li));
                    lemma_tree_kept(a, b, li, ka[i]);
                } else {
                    let j = i - ka.len();
                    assert(kk[i] == kb[j]);
                    assert(kb[j].holds(a.pages(), ps));
                    assert forall|q: PageId| #[trigger] kb[j].has(q) implies !a.spare(q) by {
                        crate::tree::lemma_branch_has(ri, sb, kb, j, q);
                    }
                    assert(!kb[j].has(li)) by {
                        if kb[j].has(li) {
                            crate::tree::lemma_branch_has(ri, sb, kb, j, li);
                        }
                    }
                    lemma_tree_kept(a, b, li, kb[j]);
                }
            }
            assert(m.holds(b.pages(), ps));
            assert(m.ok(ps, lo, hi));
            assert forall|q: PageId| #[trigger] m.has(q) implies l.has(q) || r.has(q) || fresh(
                a,
                b,
                q,
            ) by {}
            assert forall|k: Seq<u8>| #[trigger] m.find(k) == (if lex_lt(k, sep) {
                l.find(k)
            } else {
                r.find(k)
            }) by {}
            m
        },
        _ => { l },
    }
}

/// What merging children leaves of a branch: the same contents, on pages it
/// had or new ones.
pub open spec fn merge_done<'p, S: Storage>(
    a: WriteBatch<'p, S>,
    b: WriteBatch<'p, S>,
    page: PageId,
    seps: Seq<Seq<u8>>,
    kids: Seq<Tree>,
    s2: Seq<Seq<u8>>,
    k2: Seq<Tree>,
    lo: Option<Seq<u8>>,
    hi: Option<Seq<u8>>,
) -> bool {
    &&& branch_ready(b, page, s2, k2, lo, hi)
    &&& crate::node::branch_len(kid_cells(s2, k2)) <= crate::node::branch_len(kid_cells(seps, kids))
    &&& only_tree(a, b, Tree::Branch(page, seps, kids))
    &&& b.own(page) == a.own(page)
    &&& forall|x: PageId| #[trigger]
        Tree::Branch(page, s2, k2).has(x) ==> Tree::Branch(page, seps, kids).has(x) || fresh(a, b, x)
    &&& forall|k: Seq<u8>| #[trigger]
        Tree::Branch(page, s2, k2).find(k) == Tree::Branch(page, seps, kids).find(k)
}

#[verifier::rlimit(100)]
proof fn lemma_merged_child<'p, S: Storage>(
    b0: WriteBatch<'p, S>,
    b1: WriteBatch<'p, S>,
    page: PageId,
    seps: Seq<Seq<u8>>,
    kids: Seq<Tree>,
    j: int,
    id: PageId,
    n: NodeV,
    lo: Option<Seq<u8>>,
    hi: Option<Seq<u8>>,
) -> (m: Tree)
    requires
        b0.wf(),
        extends(b0, b1),
        branch_ready(b0, page, seps, kids, lo, hi),
        0 <= j < seps.len(),
        match (kids[j].node(), kids[j + 1].node()) {
            (NodeV::Leaf(x), NodeV::Leaf(y)) => n == NodeV::Leaf(x + y),
            (NodeV::Branch(f, x), NodeV::Branch(g, y)) => n == NodeV::Branch(
                f,
                x + seq![(seps[j], g)] + y,
            ),
            _ => false,
        },
        node_len(n) <= b0.size(),
        id >= 2,
        if b0.own(kids[j].root()) {
            id == kids[j].root()
        } else {
            fresh(b0, b1, id)
        },
        b1.pages() == b0.pages().insert(id, crate::node::node_bytes(n, b0.size() as nat)),
        forall|x: PageId| #[trigger] b1.own(x) == (b0.own(x) || x == id),
    ensures
        m.root() == id,
        m.node() == n,
        merge_done(
            b0,
            b1,
            page,
            seps,
            kids,
            seps.remove(j),
            kids.update(j, m).remove(j + 1),
            lo,
            hi,
        ),
{
    let whole = Tree::Branch(page, seps, kids);
    let l = kids[j];
    let r = kids[j + 1];
    let sep = seps[j];
    let jlo = kid_lo(seps, lo, j);
    let jhi = kid_hi(seps, hi, j + 1);
    assert(l.ok(b0.size(), jlo, Some(sep)));
    assert(r.ok(b0.size(), Some(sep), jhi));
    assert(crate::tree::disjoint(l, r));
    assert(crate::tree::above(seps[j], jlo)) by {
        if j > 0 {
            assert(lex_lt(seps[j - 1], seps[j]));
        }
    }
    assert(jhi matches Some(x) ==> lex_lt(sep, x)) by {
        if j + 1 < seps.len() {
            assert(lex_lt(seps[j], seps[j + 1]));
        } else {
            assert(crate::tree::in_range(seps[j], lo, hi));
        }
    }
    let m = lemma_merge_done(b0, b1, l, r, sep, id, n, jlo, jhi);
    assert(l.has(l.root()));
    lemma_join(b0, b1, page, seps, kids, j, m, l.root(), lo, hi);
    lemma_join_cells(seps, kids, j, m);
    lemma_join_has(page, seps, kids, j, m, seps.remove(j));
    let s2 = seps.remove(j);
    let k2 = kids.update(j, m).remove(j + 1);
    assert forall|k: Seq<u8>| #[trigger] Tree::Branch(page, s2, k2).find(k) == whole.find(k) by {
        lemma_join_find(page, seps, kids, j, m, k);
        lemma_route(seps, k);
        let q = route(seps, k);
        assert(whole.find(k) == kids[q].find(k));
        assert(m.find(k) == m.find(k));
        crate::tree::lemma_lex_facts2(seps[j], k);
    }
    assert forall|x: PageId| #[trigger]
        b0.pages().contains_key(x) && !(whole.has(x) && b0.own(x)) && !fresh(b0, b1, x) implies
        b1.pages().contains_key(x) && b1.pages()[x] == b0.pages()[x] by {
        if x == l.root() {
            crate::tree::lemma_branch_has(page, seps, kids, j, x);
        }
    }
    assert forall|x: PageId| #[trigger] Tree::Branch(page, s2, k2).has(x) implies whole.has(x) || fresh(
        b0,
        b1,
        x,
    ) by {
        if m.has(x) {
            if l.has(x) {
                crate::tree::lemma_branch_has(page, seps, kids, j, x);
            } else if r.has(x) {
                crate::tree::lemma_branch_has(page, seps, kids, j + 1, x);
            }
        }
    }
    assert(b1.own(page) == b0.own(page)) by {
        if id == page {
            assert(!fresh(b0, b1, page));
            assert(!l.has(page));
        }
    }
    m
}

/// After a delete descended into the child at conceptual index `idx`
/// (0 = first_child, i >= 1 = entries[i - 1]), merge that child with a
/// neighbor when it has become underfull and the pair fits into one page.
/// Cascades naturally: the parent gets smaller here, and the caller one
/// level up runs the same check on it. Neighbors of different kinds, which
/// collapsed levels leave behind, stay apart.
#[verifier::rlimit(100)]
fn merge_underfull_child<'p, S: Storage>(
    batch: &mut WriteBatch<'p, S>,
    first_child: &mut PageId,
    entries: &mut Vec<(Vec<u8>, PageId)>,
    idx: usize,
    Ghost(page): Ghost<PageId>,
    Ghost(seps): Ghost<Seq<Seq<u8>>>,
    Ghost(kids): Ghost<Seq<Tree>>,
    Ghost(lo): Ghost<Option<Seq<u8>>>,
    Ghost(hi): Ghost<Option<Seq<u8>>>,
) -> (r: Result<Ghost<(Seq<Seq<u8>>, Seq<Tree>)>>)
    requires
        old(batch).wf(),
        idx <= old(entries)@.len(),
        crate::node::branch_len(branch_view(old(entries)@)) <= 65536,
    ensures
        final(batch).next() <= old(batch).next() + 1,
        extends(*old(batch), *final(batch)),
        *final(final(batch).pager) == *final(old(batch).pager),
        crate::node::branch_len(branch_view(final(entries)@)) <= 65536,
        branch_ready(*old(batch), page, seps, kids, lo, hi) && *old(first_child) == kids[0].root()
            && branch_view(old(entries)@) == kid_cells(seps, kids) ==> match r {
            Ok(g) => {
                &&& match merger(old(batch).size(), seps, kids, idx as int) {
                    None => g@ == (seps, kids) && *final(batch) == *old(batch)
                        && *final(first_child) == *old(first_child) && final(entries)@ == old(
                        entries,
                    )@,
                    Some(n) => {
                        let j = pair_at(seps.len(), idx as int);
                        &&& g@.0 == seps.remove(j)
                        &&& g@.1.len() == kids.len() - 1
                        &&& g@.1 == kids.update(j, g@.1[j]).remove(j + 1)
                        &&& g@.1[j].node() == n
                    },
                }
                &&& *final(first_child) == g@.1[0].root()
                &&& branch_view(final(entries)@) == kid_cells(g@.0, g@.1)
                &&& merge_done(
                    *old(batch),
                    *final(batch),
                    page,
                    seps,
                    kids,
                    g@.0,
                    g@.1,
                    lo,
                    hi,
                )
            },
            Err(_) => !old(batch).reliable() || final(batch).next() >= crate::page::MAX_PAGES,
        },
{
    let ghost b0 = *batch;
    let ghost v0 = entries@;
    let ghost f0 = *first_child;
    let ghost whole = Tree::Branch(page, seps, kids);
    let ghost good = branch_ready(b0, page, seps, kids, lo, hi) && f0 == kids[0].root()
        && branch_view(v0) == kid_cells(seps, kids);
    let ps: usize = batch.page_size() as usize;
    proof {
        b0.lemma_facts();
        lemma_extends_self(b0);
        if good {
            assert(branch_view(v0).len() == v0.len() && kid_cells(seps, kids).len() == seps.len());
            assert forall|i: int| 0 <= i < v0.len() implies (#[trigger] v0[i]).1 == kids[i + 1].root()
                && v0[i].0@ == seps[i] by {
                assert(branch_view(v0)[i] == kid_cells(seps, kids)[i]);
            }
        }
    }
    if entries.len() == 0 {
        return Ok(Ghost((seps, kids)));
    }
    let child_page: PageId = child_at(*first_child, entries, idx);
    proof {
        if good {
            let c = kids[idx as int];
            assert(c.holds(b0.pages(), b0.size()));
        }
    }
    let child = match load(batch, child_page) {
        Ok(n) => n,
        Err(e) => {
            return Err(e);
        },
    };
    if child.encoded_size() >= ps / 4 {
        return Ok(Ghost((seps, kids)));
    }
    // prefer the right neighbor; the last child merges leftward
    let left_idx: usize = if idx < entries.len() {
        idx
    } else {
        idx - 1
    };
    let left_page: PageId = child_at(*first_child, entries, left_idx);
    let right_page: PageId = entries[left_idx].1;
    let ghost l = kids[left_idx as int];
    let ghost r = kids[left_idx + 1];
    proof {
        if good {
            assert(l.holds(b0.pages(), b0.size()));
            assert(r.holds(b0.pages(), b0.size()));
            assert(v0[left_idx as int].1 == kids[left_idx + 1].root());
            if left_idx > 0 {
                assert(v0[left_idx - 1].1 == kids[left_idx as int].root());
            }
        }
    }
    let left = match load(batch, left_page) {
        Ok(n) => n,
        Err(e) => {
            return Err(e);
        },
    };
    let right = match load(batch, right_page) {
        Ok(n) => n,
        Err(e) => {
            return Err(e);
        },
    };
    let sep: Vec<u8> = copy_vec(entries[left_idx].0.as_slice());
    let ghost ln = left@;
    let ghost rn = right@;
    proof {
        crate::node::lemma_branch_len_min(branch_view(v0));
        assert(branch_view(v0)[left_idx as int].0 == sep@);
        lemma_merged_len(ln, rn, sep@);
    }
    let node = match merged(left, right, &sep) {
        None => {
            return Ok(Ghost((seps, kids)));
        },
        Some(n) => n,
    };
    // leave headroom so a merge does not split again on the next insert
    if node.encoded_size() > ps * 7 / 8 {
        return Ok(Ghost((seps, kids)));
    }
    let new_left: PageId = match write_node(batch, Some(left_page), &node) {
        Ok(id) => id,
        Err(e) => {
            return Err(e);
        },
    };
    let ghost b1 = *batch;
    set_child(first_child, entries, left_idx, new_left);
    let ghost v1 = entries@;
    entries.remove(left_idx);
    let ghost mut out = (seps, kids);
    proof {
        lemma_set_child_len(v0, v1);
        assert(branch_view(entries@) =~= branch_view(v1).remove(left_idx as int));
        lemma_cells_remove_len(branch_view(v1), left_idx as int);
        if good {
            let j = left_idx as int;
            assert(sep@ == seps[j]) by {
                assert(v0[j].0@ == seps[j]);
            }
            let m = lemma_merged_child(b0, b1, page, seps, kids, j, new_left, node@, lo, hi);
            lemma_join_cells(seps, kids, j, m);
            lemma_set_child(v0, v1, seps, kids, j, m);
            let k2 = kids.update(j, m).remove(j + 1);
            out = (seps.remove(j), k2);
            assert(k2[0] == (if j == 0 {
                m
            } else {
                kids[0]
            }));
            assert(k2[j] == m);
        }
    }
    Ok(Ghost(out))
}

proof fn lemma_merged_len(l: NodeV, r: NodeV, sep: Seq<u8>)
    requires
        node_len(l) <= 65536,
        node_len(r) <= 65536,
        sep.len() <= 65536,
    ensures
        match (l, r) {
            (NodeV::Leaf(a), NodeV::Leaf(b)) => node_len(NodeV::Leaf(a + b)) <= NODE_BOUND,
            (NodeV::Branch(f, a), NodeV::Branch(g, b)) => node_len(
                NodeV::Branch(f, a + seq![(sep, g)] + b),
            ) <= NODE_BOUND,
            _ => true,
        },
{
    match (l, r) {
        (NodeV::Leaf(a), NodeV::Leaf(b)) => {
            crate::node::lemma_leaf_len_add(a, b);
        },
        (NodeV::Branch(f, a), NodeV::Branch(g, b)) => {
            crate::node::lemma_branch_len_add(a + seq![(sep, g)], b);
            crate::node::lemma_branch_len_add(a, seq![(sep, g)]);
            lemma_branch_len_one((sep, g));
        },
        _ => {},
    }
}

proof fn lemma_cells_remove_len(v: Seq<crate::node::BranchCell>, at: int)
    requires
        0 <= at < v.len(),
    ensures
        crate::node::branch_len(v.remove(at)) <= crate::node::branch_len(v),
{
    assert(v.remove(at) =~= v.take(at) + v.skip(at + 1));
    crate::node::lemma_branch_len_add(v.take(at), v.skip(at + 1));
    lemma_branch_len_cut(v, at + 1);
    lemma_branch_len_take(v, at);
}

proof fn lemma_entries_remove(
    page: PageId,
    e: Seq<Entry>,
    at: int,
    ps: u32,
    lo: Option<Seq<u8>>,
    hi: Option<Seq<u8>>,
)
    requires
        crate::tree::entries_ok(page, e, ps, lo, hi),
        0 <= at < e.len(),
    ensures
        crate::tree::entries_ok(page, e.remove(at), ps, lo, hi),
        forall|k: Seq<u8>| #[trigger]
            entries_find(e.remove(at), k) == (if k == e[at].0 {
                None
            } else {
                entries_find(e, k)
            }),
        forall|x: PageId| #[trigger]
            Tree::Leaf(page, e.remove(at)).has(x) ==> Tree::Leaf(page, e).has(x),
        crate::node::leaf_len(entry_cells(e.remove(at))) <= crate::node::leaf_len(entry_cells(e)),
        entry_cells(e.remove(at)) == entry_cells(e).remove(at),
{
    let f = e.remove(at);
    let ke = entry_keys(e);
    let kf = entry_keys(f);
    assert forall|i: int| 0 <= i < f.len() implies #[trigger] f[i] == e[if i < at {
        i
    } else {
        i + 1
    }] by {}
    assert forall|i: int, j: int| 0 <= i < j < kf.len() implies lex_lt(
        #[trigger] kf[i],
        #[trigger] kf[j],
    ) by {
        let x = if i < at {
            i
        } else {
            i + 1
        };
        let y = if j < at {
            j
        } else {
            j + 1
        };
        assert(kf[i] == ke[x] && kf[j] == ke[y]);
    }
    assert forall|i: int, j: int| 0 <= i < j < f.len() implies crate::tree::values_disjoint(
        (#[trigger] f[i]).1,
        (#[trigger] f[j]).1,
    ) by {
        let x = if i < at {
            i
        } else {
            i + 1
        };
        let y = if j < at {
            j
        } else {
            j + 1
        };
        assert(crate::tree::values_disjoint(e[x].1, e[y].1));
    }
    assert forall|k: Seq<u8>| #[trigger] entries_find(f, k) == (if k == e[at].0 {
        None
    } else {
        entries_find(e, k)
    }) by {
        if exists|i: int| 0 <= i < f.len() && (#[trigger] f[i]).0 == k {
            let i = crate::tree::entry_index(f, k);
            assert(f[i].0 == k);
            let x = if i < at {
                i
            } else {
                i + 1
            };
            lemma_entries_find(f, k, i);
            lemma_entries_find(e, k, x);
            lemma_lex_irrefl(k);
            assert(ke[x] == k);
            assert(k != e[at].0) by {
                assert(ke[at] == e[at].0);
                if x < at {
                    assert(lex_lt(ke[x], ke[at]));
                } else {
                    assert(lex_lt(ke[at], ke[x]));
                }
            }
        } else if k != e[at].0 {
            assert forall|i: int| 0 <= i < e.len() implies (#[trigger] e[i]).0 != k by {
                if i < at {
                    assert(f[i].0 != k);
                } else if i > at {
                    assert(f[i - 1].0 != k);
                }
            }
        }
    }
    assert forall|x: PageId| #[trigger] Tree::Leaf(page, f).has(x) implies Tree::Leaf(page, e).has(x) by {
        if x == page {
            assert(Tree::Leaf(page, e).has(page));
        } else {
            let i = choose|i: int| 0 <= i < f.len() && (#[trigger] f[i]).1.has(x);
            crate::tree::lemma_leaf_has(
                page,
                e,
                if i < at {
                    i
                } else {
                    i + 1
                },
                x,
            );
        }
    }
    let c = entry_cells(e);
    assert(entry_cells(f) =~= c.take(at) + c.skip(at + 1));
    assert(entry_cells(f) =~= c.remove(at));
    crate::node::lemma_leaf_len_add(c.take(at), c.skip(at + 1));
    lemma_leaf_len_cut(c, at + 1);
    lemma_leaf_len_take(c, at);
}

/// Write a leaf that fits its page.
fn write_leaf<'p, S: Storage>(
    batch: &mut WriteBatch<'p, S>,
    page: PageId,
    entries: Vec<(Vec<u8>, ValueRef)>,
    Ghost(e): Ghost<Seq<Entry>>,
    Ghost(lo): Ghost<Option<Seq<u8>>>,
    Ghost(hi): Ghost<Option<Seq<u8>>>,
) -> (r: Result<(PageId, Ghost<Tree>)>)
    requires
        old(batch).wf(),
        crate::node::leaf_len(leaf_view(entries@)) <= NODE_BOUND - 16,
    ensures
        final(batch).next() <= old(batch).next() + 1,
        extends(*old(batch), *final(batch)),
        *final(final(batch).pager) == *final(old(batch).pager),
        leaf_ready(*old(batch), page, e, lo, hi) && leaf_view(entries@) == entry_cells(e)
            && crate::node::leaf_len(entry_cells(e)) <= old(batch).size() - 16 ==> match r {
            Ok((id, g)) => only_page(*old(batch), *final(batch), page) && insert_done(
                *old(batch),
                *final(batch),
                Tree::Leaf(page, e),
                page,
                Insert::Done(id),
                g@,
                g@,
                lo,
                hi,
            ),
            Err(_) => final(batch).next() >= crate::page::MAX_PAGES,
        },
{
    let ghost b0 = *batch;
    let ghost ps = batch.size();
    let ghost whole = Tree::Leaf(page, e);
    let ghost good = leaf_ready(b0, page, e, lo, hi) && leaf_view(entries@) == entry_cells(e)
        && crate::node::leaf_len(entry_cells(e)) <= ps - 16;
    proof {
        b0.lemma_facts();
    }
    let node = Node::Leaf { entries };
    let id: PageId = match write_node(batch, Some(page), &node) {
        Ok(id) => id,
        Err(x) => {
            return Err(x);
        },
    };
    let ghost u = Tree::Leaf(id, e);
    proof {
        if good {
            lemma_cells_sorted(e);
            lemma_written_node(NodeV::Leaf(entry_cells(e)), ps);
            assert(e.subrange(0, e.len() as int) =~= e);
            assert(id == page || fresh(b0, *batch, id));
            lemma_one_written(b0, *batch, page, id);
            lemma_leaf_part(b0, *batch, page, id, e, 0, e.len() as int, lo, hi, lo, hi);
            assert forall|x: PageId| #[trigger] u.has(x) implies whole.has(x) || fresh(b0, *batch, x) by {
                lemma_has_sub(page, id, e, 0, e.len() as int, x);
            }
            assert forall|k: Seq<u8>| #[trigger] u.find(k) == whole.find(k) by {}
        }
    }
    Ok((id, Ghost(u)))
}

/// Remove `key` from a decoded leaf and put the leaf back.
#[verifier::rlimit(60)]
fn delete_leaf<'p, S: Storage>(
    batch: &mut WriteBatch<'p, S>,
    page: PageId,
    entries: Vec<(Vec<u8>, ValueRef)>,
    key: &[u8],
    Ghost(t): Ghost<Tree>,
    Ghost(lo): Ghost<Option<Seq<u8>>>,
    Ghost(hi): Ghost<Option<Seq<u8>>>,
) -> (r: Result<(Delete, Ghost<Tree>)>)
    requires
        old(batch).wf(),
        sorted(leaf_keys(leaf_view(entries@))),
        16 + crate::node::leaf_len(leaf_view(entries@)) <= old(batch).size(),
    ensures
        final(batch).next() <= old(batch).next() + 1,
        extends(*old(batch), *final(batch)),
        *final(final(batch).pager) == *final(old(batch).pager),
        put_ready(*old(batch), t, no_value(), lo, hi) && t.root() == page && t.node() == NodeV::Leaf(
            leaf_view(entries@),
        ) ==> match r {
            Ok((d, g)) => delete_done(*old(batch), *final(batch), t, key@, d, g@, lo, hi),
            Err(_) => final(batch).next() >= crate::page::MAX_PAGES,
        },
{
    let ghost b0 = *batch;
    let ghost ps = batch.size();
    let ghost v0 = entries@;
    let ghost good = put_ready(b0, t, no_value(), lo, hi) && t.root() == page && t.node()
        == NodeV::Leaf(leaf_view(entries@));
    let ghost e: Seq<Entry> = match t {
        Tree::Leaf(id, e) => e,
        Tree::Branch(id, seps, kids) => Seq::empty(),
    };
    proof {
        b0.lemma_facts();
        lemma_extends_self(b0);
        if good {
            lemma_leaf_sorted_view(v0, e);
            assert forall|j: int| 0 <= j < e.len() implies (#[trigger] e[j]).0 == v0[j].0@ by {
                assert(entry_keys(e)[j] == leaf_keys(leaf_view(v0))[j]);
            }
        }
    }
    let (found, i) = leaf_position(&entries, key);
    if !found {
        proof {
            if good {
                lemma_leaf_absent(v0, e, key@, i as int);
            }
        }
        return Ok((Delete::NotFound, Ghost(t)));
    }
    let mut entries: Vec<(Vec<u8>, ValueRef)> = entries;
    entries.remove(i);
    let ghost f = e.remove(i as int);
    proof {
        let lv = leaf_view(v0);
        assert(leaf_view(entries@) =~= lv.remove(i as int));
        lemma_leaf_remove_len(lv, i as int);
        if good {
            lemma_entries_find(e, key@, i as int);
            lemma_entries_remove(page, e, i as int, ps, lo, hi);
            assert(t.has(page));
            assert(leaf_ready(b0, page, f, lo, hi)) by {
                assert forall|j: int| 0 <= j < f.len() implies (#[trigger] f[j]).1.holds(
                    b0.pages(),
                    ps,
                ) && value_unspared(b0, f[j].1) by {
                    let n = if j < i {
                        j
                    } else {
                        j + 1
                    };
                    assert(f[j] == e[n]);
                    assert(e[n].1.holds(b0.pages(), ps));
                    assert forall|x: PageId| #[trigger] e[n].1.has(x) implies !b0.spare(x) by {
                        crate::tree::lemma_leaf_has(page, e, n, x);
                    }
                }
            }
        }
    }
    if entries.len() == 0 {
        proof {
            if good {
                assert forall|k: Seq<u8>| k != key@ implies (#[trigger] t.find(k)) is None by {
                    assert forall|j: int| 0 <= j < e.len() implies (#[trigger] e[j]).0 != k by {
                        assert(j == i);
                    }
                }
            }
        }
        return Ok((Delete::Emptied, Ghost(t)));
    }
    match write_leaf(batch, page, entries, Ghost(f), Ghost(lo), Ghost(hi)) {
        Ok((id, g)) => {
            proof {
                if good {
                    let whole = Tree::Leaf(page, f);
                    let u = g@;
                    assert forall|x: PageId| #[trigger] u.has(x) implies t.has(x) || fresh(
                        b0,
                        *batch,
                        x,
                    ) by {
                        assert(whole.has(x) || fresh(b0, *batch, x));
                    }
                    assert forall|k: Seq<u8>| #[trigger] u.find(k) == (if k == key@ {
                        None
                    } else {
                        t.find(k)
                    }) by {
                        assert(u.find(k) == whole.find(k));
                        assert(entries_find(f, k) == whole.find(k));
                    }
                }
            }
            Ok((Delete::Updated(id), g))
        },
        Err(x) => Err(x),
    }
}

proof fn lemma_leaf_remove_len(v: Seq<LeafCell>, at: int)
    requires
        0 <= at < v.len(),
    ensures
        crate::node::leaf_len(v.remove(at)) <= crate::node::leaf_len(v),
{
    assert(v.remove(at) =~= v.take(at) + v.skip(at + 1));
    crate::node::lemma_leaf_len_add(v.take(at), v.skip(at + 1));
    lemma_leaf_len_cut(v, at + 1);
    lemma_leaf_len_take(v, at);
}

/// Which separator goes when child `idx` goes.
pub open spec fn sep_of(idx: int) -> int {
    if idx == 0 {
        0
    } else {
        idx - 1
    }
}

/// One child gone: the branch is ready to be written.
#[verifier::rlimit(80)]
proof fn lemma_child_dropped<'p, S: Storage>(
    a: WriteBatch<'p, S>,
    b: WriteBatch<'p, S>,
    page: PageId,
    seps: Seq<Seq<u8>>,
    kids: Seq<Tree>,
    idx: int,
    lo: Option<Seq<u8>>,
    hi: Option<Seq<u8>>,
)
    requires
        a.wf(),
        extends(a, b),
        put_ready(a, Tree::Branch(page, seps, kids), no_value(), lo, hi),
        0 <= idx < kids.len(),
        seps.len() > 0,
        only_tree(a, b, kids[idx]),
    ensures
        branch_ready(b, page, seps.remove(sep_of(idx)), kids.remove(idx), lo, hi),
        b.own(page) == a.own(page),
{
    let ps = a.size();
    let j = sep_of(idx);
    let z = seps.remove(j);
    let k = kids.remove(idx);
    lemma_siblings(a, b, page, seps, kids, idx, no_value(), kids[idx], lo, hi);
    crate::tree::lemma_sorted_remove(seps, j);
    assert forall|i: int| 0 <= i < z.len() implies #[trigger] z[i] == seps[if i < j {
        i
    } else {
        i + 1
    }] by {}
    assert forall|i: int| 0 <= i < k.len() implies #[trigger] k[i] == kids[if i < idx {
        i
    } else {
        i + 1
    }] by {}
    assert forall|i: int| 0 <= i < k.len() implies (#[trigger] k[i]).ok(
        ps,
        kid_lo(z, lo, i),
        kid_hi(z, hi, i),
    ) && !k[i].has(page) && k[i].holds(b.pages(), ps) && unspared(b, k[i]) by {
        let n = if i < idx {
            i
        } else {
            i + 1
        };
        let d = kids[n];
        assert(k[i] == d);
        let dl = kid_lo(seps, lo, n);
        let dh = kid_hi(seps, hi, n);
        assert(d.ok(ps, dl, dh));
        if idx == 0 {
            if i == 0 {
                assert(dl == Some(seps[0]));
                assert(kid_lo(z, lo, 0) == lo);
                assert(kid_hi(z, hi, 0) == dh);
                assert(crate::tree::in_range(seps[0], lo, hi));
                if dh is Some {
                    lemma_lex_irrefl(dh->0);
                }
                crate::tree::lemma_ok_widen(d, ps, dl, dh, lo, dh);
            } else {
                assert(kid_lo(z, lo, i) == dl);
                assert(kid_hi(z, hi, i) == dh);
            }
        } else if i == idx - 1 {
            assert(dh == Some(seps[idx - 1]));
            assert(kid_lo(z, lo, i) == dl);
            let h2 = kid_hi(z, hi, i);
            assert(h2 == kid_hi(seps, hi, idx));
            if idx < seps.len() {
                assert(lex_lt(seps[idx - 1], seps[idx]));
            } else {
                assert(crate::tree::in_range(seps[idx - 1], lo, hi));
            }
            if dl is Some {
                lemma_lex_irrefl(dl->0);
            }
            crate::tree::lemma_ok_widen(d, ps, dl, dh, dl, h2);
        } else {
            assert(kid_lo(z, lo, i) == dl);
            assert(kid_hi(z, hi, i) == dh);
        }
    }
    assert forall|i: int, n: int| 0 <= i < n < k.len() implies crate::tree::disjoint(
        #[trigger] k[i],
        #[trigger] k[n],
    ) by {
        let x = if i < idx {
            i
        } else {
            i + 1
        };
        let y = if n < idx {
            n
        } else {
            n + 1
        };
        assert(crate::tree::disjoint(kids[x], kids[y]));
    }
}

/// What a branch finds, and which pages it uses, once an emptied child is
/// gone.
#[verifier::rlimit(60)]
proof fn lemma_dropped_find(
    page: PageId,
    seps: Seq<Seq<u8>>,
    kids: Seq<Tree>,
    idx: int,
    ps: u32,
    lo: Option<Seq<u8>>,
    hi: Option<Seq<u8>>,
    q: Seq<u8>,
)
    requires
        Tree::Branch(page, seps, kids).ok(ps, lo, hi),
        0 <= idx < kids.len(),
        seps.len() > 0,
    ensures
        Tree::Branch(page, seps.remove(sep_of(idx)), kids.remove(idx)).find(q) == (if route(seps, q)
            == idx {
            None
        } else {
            kids[route(seps, q)].find(q)
        }),
{
    let j = sep_of(idx);
    let z = seps.remove(j);
    let k = kids.remove(idx);
    let whole = Tree::Branch(page, z, k);
    crate::tree::lemma_route_remove(seps, j, q);
    lemma_route(seps, q);
    let r = route(seps, q);
    let n = route(z, q);
    assert(whole.find(q) == k[n].find(q));
    if r == idx {
        if idx == 0 {
            assert(n == 0);
            assert(k[0] == kids[1]);
            assert(kids[1].ok(ps, kid_lo(seps, lo, 1), kid_hi(seps, hi, 1)));
            assert(lex_lt(q, seps[0]));
            crate::tree::lemma_lex_facts2(seps[0], q);
            crate::tree::lemma_find_in_range(
                kids[1],
                ps,
                kid_lo(seps, lo, 1),
                kid_hi(seps, hi, 1),
                q,
            );
        } else {
            assert(n == idx - 1);
            assert(k[n] == kids[idx - 1]);
            assert(kids[idx - 1].ok(ps, kid_lo(seps, lo, idx - 1), kid_hi(seps, hi, idx - 1)));
            assert(lex_le(seps[idx - 1], q));
            crate::tree::lemma_lex_facts2(seps[idx - 1], q);
            crate::tree::lemma_find_in_range(
                kids[idx - 1],
                ps,
                kid_lo(seps, lo, idx - 1),
                kid_hi(seps, hi, idx - 1),
                q,
            );
        }
    } else {
        assert(k[n] == kids[r]);
    }
}

proof fn lemma_dropped_has(page: PageId, seps: Seq<Seq<u8>>, kids: Seq<Tree>, idx: int, z: Seq<Seq<u8>>)
    requires
        0 <= idx < kids.len(),
    ensures
        forall|x: PageId| #[trigger]
            Tree::Branch(page, z, kids.remove(idx)).has(x) ==> Tree::Branch(page, seps, kids).has(x),
{
    let t = Tree::Branch(page, seps, kids);
    let k = kids.remove(idx);
    assert forall|x: PageId| #[trigger] Tree::Branch(page, z, k).has(x) implies t.has(x) by {
        if x == page {
            assert(t.has(page));
        } else {
            let i = choose|i: int| 0 <= i < k.len() && (#[trigger] k[i]).has(x);
            let n = if i < idx {
                i
            } else {
                i + 1
            };
            assert(k[i] == kids[n]);
            crate::tree::lemma_branch_has(page, seps, kids, n, x);
        }
    }
}

proof fn lemma_dropped_cells(seps: Seq<Seq<u8>>, kids: Seq<Tree>, idx: int)
    requires
        kids.len() == seps.len() + 1,
        0 <= idx < kids.len(),
        seps.len() > 0,
    ensures
        kid_cells(seps.remove(sep_of(idx)), kids.remove(idx)) == kid_cells(seps, kids).remove(
            sep_of(idx),
        ),
        kids.remove(idx)[0] == (if idx == 0 {
            kids[1]
        } else {
            kids[0]
        }),
{
    let j = sep_of(idx);
    let z = seps.remove(j);
    let k = kids.remove(idx);
    let a = kid_cells(z, k);
    let b = kid_cells(seps, kids).remove(j);
    assert forall|i: int| 0 <= i < a.len() implies a[i] == b[i] by {
        if i < j {
            assert(z[i] == seps[i]);
            assert(k[i + 1] == kids[i + 1]);
        } else {
            assert(z[i] == seps[i + 1]);
            assert(k[i + 1] == kids[i + 2]);
        }
    }
    assert(a =~= b);
}

/// What holds of the branch after its child was edited: the batch so far,
/// the separators and children to be written.
pub open spec fn branch_edit<'p, S: Storage>(
    a: WriteBatch<'p, S>,
    b: WriteBatch<'p, S>,
    t: Tree,
    page: PageId,
    key: Seq<u8>,
    seps: Seq<Seq<u8>>,
    kids: Seq<Tree>,
    lo: Option<Seq<u8>>,
    hi: Option<Seq<u8>>,
) -> bool {
    &&& branch_ready(b, page, seps, kids, lo, hi)
    &&& crate::node::branch_len(kid_cells(seps, kids)) <= a.size() - 24
    &&& only_tree(a, b, t)
    &&& b.own(page) == a.own(page)
    &&& forall|x: PageId| #[trigger]
        Tree::Branch(page, seps, kids).has(x) ==> t.has(x) || fresh(a, b, x)
    &&& forall|k: Seq<u8>| #[trigger]
        Tree::Branch(page, seps, kids).find(k) == (if k == key {
            None
        } else {
            t.find(k)
        })
}

/// Write an edited branch, or hand up its only child.
#[verifier::rlimit(60)]
fn finish_delete<'p, S: Storage>(
    batch: &mut WriteBatch<'p, S>,
    page: PageId,
    first_child: PageId,
    entries: Vec<(Vec<u8>, PageId)>,
    Ghost(b0): Ghost<WriteBatch<'p, S>>,
    Ghost(t): Ghost<Tree>,
    Ghost(key): Ghost<Seq<u8>>,
    Ghost(seps): Ghost<Seq<Seq<u8>>>,
    Ghost(kids): Ghost<Seq<Tree>>,
    Ghost(lo): Ghost<Option<Seq<u8>>>,
    Ghost(hi): Ghost<Option<Seq<u8>>>,
) -> (r: Result<(Delete, Ghost<Tree>)>)
    requires
        old(batch).wf(),
        crate::node::branch_len(branch_view(entries@)) <= 65536,
    ensures
        final(batch).next() <= old(batch).next() + 1,
        extends(*old(batch), *final(batch)),
        *final(final(batch).pager) == *final(old(batch).pager),
        b0.wf() && b0.free_ok() && extends(b0, *old(batch)) && t.has(page) && unspared(b0, t) && t.find(
            key,
        ) is Some && branch_edit(b0, *old(batch), t, page, key, seps, kids, lo, hi) && first_child
            == kids[0].root() && branch_view(entries@) == kid_cells(seps, kids) ==> match r {
            Ok((d, g)) => delete_done(b0, *final(batch), t, key, d, g@, lo, hi),
            Err(_) => final(batch).next() >= crate::page::MAX_PAGES,
        },
{
    let ghost b1 = *batch;
    let ghost good = b0.wf() && b0.free_ok() && extends(b0, b1) && t.has(page) && unspared(b0, t)
        && t.find(key) is Some && branch_edit(b0, b1, t, page, key, seps, kids, lo, hi)
        && first_child == kids[0].root() && branch_view(entries@) == kid_cells(seps, kids);
    proof {
        lemma_extends_self(b1);
    }
    if entries.len() == 0 {
        // down to a single child: collapse the level
        let ghost u = kids[0];
        proof {
            if good {
                let whole = Tree::Branch(page, seps, kids);
                assert(branch_view(entries@).len() == 0);
                assert(seps.len() == 0);
                assert(u.ok(b0.size(), kid_lo(seps, lo, 0), kid_hi(seps, hi, 0)));
                assert forall|x: PageId| #[trigger] u.has(x) implies t.has(x) || fresh(b0, b1, x) by {
                    crate::tree::lemma_branch_has(page, seps, kids, 0, x);
                }
                assert forall|k: Seq<u8>| #[trigger] u.find(k) == (if k == key {
                    None
                } else {
                    t.find(k)
                }) by {
                    assert(whole.find(k) == kids[route(seps, k)].find(k));
                    assert(route(seps, k) == 0);
                }
            }
        }
        return Ok((Delete::Updated(first_child), Ghost(u)));
    }
    match write_branch(
        batch,
        page,
        first_child,
        entries,
        Ghost(seps),
        Ghost(kids),
        Ghost(lo),
        Ghost(hi),
    ) {
        Ok((id, g)) => {
            proof {
                if good {
                    let b2 = *batch;
                    let whole = Tree::Branch(page, seps, kids);
                    let u = g@;
                    lemma_extends_trans(b0, b1, b2);
                    assert(only_tree(b0, b2, t)) by {
                        assert forall|x: PageId| #[trigger]
                            b0.pages().contains_key(x) && !(t.has(x) && b0.own(x)) && !fresh(
                                b0,
                                b2,
                                x,
                            ) implies b2.pages().contains_key(x) && b2.pages()[x] == b0.pages()[x] by {
                            assert(!fresh(b0, b1, x) && !fresh(b1, b2, x));
                            assert(b1.pages().contains_key(x));
                            assert(!(x == page && b1.own(x)));
                        }
                    }
                    assert forall|x: PageId| #[trigger] u.has(x) implies t.has(x) || fresh(b0, b2, x) by {
                        assert(whole.has(x) || fresh(b1, b2, x));
                    }
                    assert forall|k: Seq<u8>| #[trigger] u.find(k) == (if k == key {
                        None
                    } else {
                        t.find(k)
                    }) by {
                        assert(u.find(k) == whole.find(k));
                    }
                }
            }
            Ok((Delete::Updated(id), g))
        },
        Err(e) => Err(e),
    }
}

#[verifier::rlimit(100)]
fn delete_rec<'p, S: Storage>(
    batch: &mut WriteBatch<'p, S>,
    page: PageId,
    key: &[u8],
    fuel: u64,
    Ghost(t): Ghost<Tree>,
    Ghost(lo): Ghost<Option<Seq<u8>>>,
    Ghost(hi): Ghost<Option<Seq<u8>>>,
) -> (r: Result<(Delete, Ghost<Tree>)>)
    requires
        old(batch).wf(),
    ensures
        final(batch).next() <= old(batch).next() + 2 * fuel,
        extends(*old(batch), *final(batch)),
        *final(final(batch).pager) == *final(old(batch).pager),
        put_ready(*old(batch), t, no_value(), lo, hi) && t.root() == page && t.nodes() <= fuel
            ==> match r {
            Ok((d, g)) => delete_done(*old(batch), *final(batch), t, key@, d, g@, lo, hi),
            Err(_) => !old(batch).reliable() || final(batch).next() >= crate::page::MAX_PAGES,
        },
    decreases fuel,
{
    let ghost b0 = *batch;
    let ghost ps = batch.size();
    let ghost good = put_ready(b0, t, no_value(), lo, hi) && t.root() == page && t.nodes() <= fuel;
    proof {
        b0.lemma_facts();
        lemma_extends_self(b0);
    }
    if fuel == 0 {
        return Err(endless(page));
    }
    let node = match load(batch, page) {
        Ok(n) => n,
        Err(e) => {
            return Err(e);
        },
    };
    proof {
        if good {
            assert(node@ == t.node());
        }
    }
    match node {
        Node::Leaf { entries } => delete_leaf(
            batch,
            page,
            entries,
            key,
            Ghost(t),
            Ghost(lo),
            Ghost(hi),
        ),
        Node::Branch { first_child, entries } => {
            // conceptual child index: 0 = first_child, i >= 1 = entries[i-1]
            let idx: usize = branch_position(&entries, key);
            let child: PageId = child_at(first_child, &entries, idx);
            let ghost v0 = entries@;
            let ghost seps: Seq<Seq<u8>> = match t {
                Tree::Leaf(id, e) => Seq::empty(),
                Tree::Branch(id, s, k) => s,
            };
            let ghost kids: Seq<Tree> = match t {
                Tree::Leaf(id, e) => Seq::empty(),
                Tree::Branch(id, s, k) => k,
            };
            let ghost kid = kids[idx as int];
            let ghost klo = kid_lo(seps, lo, idx as int);
            let ghost khi = kid_hi(seps, hi, idx as int);
            proof {
                if good {
                    lemma_kid_ready(b0, t, page, seps, kids, key@, idx as int, v0, lo, hi);
                    lemma_kid_nodes(kids, idx as int);
                }
            }
            let (d, g) = match delete_rec(
                batch,
                child,
                key,
                fuel - 1,
                Ghost(kid),
                Ghost(klo),
                Ghost(khi),
            ) {
                Ok(x) => x,
                Err(e) => {
                    return Err(e);
                },
            };
            let ghost b1 = *batch;
            let ghost u = g@;
            let mut first_child: PageId = first_child;
            let mut entries: Vec<(Vec<u8>, PageId)> = entries;
            match d {
                Delete::NotFound => Ok((Delete::NotFound, Ghost(t))),
                Delete::Updated(new_child) => {
                    set_child(&mut first_child, &mut entries, idx, new_child);
                    let ghost kids1 = kids.update(idx as int, u);
                    proof {
                        lemma_set_child_len(v0, entries@);
                        if good {
                            lemma_child_replaced(
                                b0,
                                b1,
                                page,
                                seps,
                                kids,
                                idx as int,
                                no_value(),
                                u,
                                lo,
                                hi,
                            );
                            lemma_set_child(v0, entries@, seps, kids, idx as int, u);
                        }
                    }
                    let g2 = match merge_underfull_child(
                        batch,
                        &mut first_child,
                        &mut entries,
                        idx,
                        Ghost(page),
                        Ghost(seps),
                        Ghost(kids1),
                        Ghost(lo),
                        Ghost(hi),
                    ) {
                        Ok(g) => g,
                        Err(e) => {
                            proof {
                                lemma_extends_trans(b0, b1, *batch);
                            }
                            return Err(e);
                        },
                    };
                    let ghost b2 = *batch;
                    let ghost s2 = g2@.0;
                    let ghost k2 = g2@.1;
                    proof {
                        lemma_extends_trans(b0, b1, b2);
                        if good {
                            lemma_merged_edit(
                                b0,
                                b1,
                                b2,
                                page,
                                seps,
                                kids,
                                idx as int,
                                u,
                                s2,
                                k2,
                                key@,
                                lo,
                                hi,
                            );
                        }
                    }
                    let r = finish_delete(
                        batch,
                        page,
                        first_child,
                        entries,
                        Ghost(b0),
                        Ghost(t),
                        Ghost(key@),
                        Ghost(s2),
                        Ghost(k2),
                        Ghost(lo),
                        Ghost(hi),
                    );
                    proof {
                        lemma_extends_trans(b0, b2, *batch);
                    }
                    r
                },
                Delete::Emptied => {
                    if idx == 0 {
                        if entries.len() == 0 {
                            proof {
                                if good {
                                    assert(branch_view(v0).len() == 0);
                                    lemma_only_kid_emptied(b0, b1, page, seps, kids, key@);
                                }
                            }
                            return Ok((Delete::Emptied, Ghost(t)));
                        }
                        first_child = entries.remove(0).1;
                    } else {
                        entries.remove(idx - 1);
                    }
                    let ghost j = sep_of(idx as int);
                    let ghost s2 = seps.remove(j);
                    let ghost k2 = kids.remove(idx as int);
                    proof {
                        assert(branch_view(entries@) =~= branch_view(v0).remove(j));
                        lemma_cells_remove_len(branch_view(v0), j);
                        if good {
                            assert(branch_view(v0) == kid_cells(seps, kids));
                            lemma_dropped_cells(seps, kids, idx as int);
                            if idx == 0 {
                                assert(branch_view(v0)[0] == kid_cells(seps, kids)[0]);
                            }
                            lemma_dropped_edit(
                                b0,
                                b1,
                                page,
                                seps,
                                kids,
                                idx as int,
                                key@,
                                lo,
                                hi,
                            );
                        }
                    }
                    let r = finish_delete(
                        batch,
                        page,
                        first_child,
                        entries,
                        Ghost(b0),
                        Ghost(t),
                        Ghost(key@),
                        Ghost(s2),
                        Ghost(k2),
                        Ghost(lo),
                        Ghost(hi),
                    );
                    proof {
                        lemma_extends_trans(b0, b1, *batch);
                    }
                    r
                },
            }
        },
    }
}

/// A child is ready to be edited where its branch is.
#[verifier::rlimit(40)]
proof fn lemma_kid_ready<'p, S: Storage>(
    b: WriteBatch<'p, S>,
    t: Tree,
    page: PageId,
    seps: Seq<Seq<u8>>,
    kids: Seq<Tree>,
    key: Seq<u8>,
    idx: int,
    v0: Seq<(Vec<u8>, PageId)>,
    lo: Option<Seq<u8>>,
    hi: Option<Seq<u8>>,
)
    requires
        t == Tree::Branch(page, seps, kids),
        put_ready(b, t, no_value(), lo, hi),
        t.node() matches NodeV::Branch(f, c) && c == branch_view(v0),
        idx == route(branch_keys(branch_view(v0)), key),
    ensures
        branch_view(v0) == kid_cells(seps, kids),
        idx == route(seps, key),
        0 <= idx < kids.len(),
        put_ready(b, kids[idx], no_value(), kid_lo(seps, lo, idx), kid_hi(seps, hi, idx)),
        kids[idx].root() == (if idx == 0 {
            kids[0].root()
        } else {
            v0[idx - 1].1
        }),
        t.has(page),
{
    lemma_branch_node(seps, kids);
    lemma_route(seps, key);
    let kid = kids[idx];
    if idx > 0 {
        assert(kid_cells(seps, kids)[idx - 1].1 == kid.root());
        assert(branch_view(v0)[idx - 1].1 == v0[idx - 1].1);
    }
    assert(kid.ok(b.size(), kid_lo(seps, lo, idx), kid_hi(seps, hi, idx)));
    assert(kid.holds(b.pages(), b.size()));
    assert forall|x: PageId| #[trigger] kid.has(x) implies !b.spare(x) by {
        crate::tree::lemma_branch_has(page, seps, kids, idx, x);
    }
}

proof fn lemma_only_kid_emptied<'p, S: Storage>(
    a: WriteBatch<'p, S>,
    b: WriteBatch<'p, S>,
    page: PageId,
    seps: Seq<Seq<u8>>,
    kids: Seq<Tree>,
    key: Seq<u8>,
)
    requires
        seps.len() == 0,
        kids.len() == 1,
        kids[0].find(key) is Some,
        only_tree(a, b, kids[0]),
        forall|k: Seq<u8>| k != key ==> (#[trigger] kids[0].find(k)) is None,
    ensures
        Tree::Branch(page, seps, kids).find(key) is Some,
        only_tree(a, b, Tree::Branch(page, seps, kids)),
        forall|k: Seq<u8>| k != key ==> (#[trigger] Tree::Branch(page, seps, kids).find(k)) is None,
{
    let t = Tree::Branch(page, seps, kids);
    assert forall|k: Seq<u8>| #[trigger] t.find(k) == kids[0].find(k) by {
        assert(route(seps, k) == 0);
    }
    assert(t.find(key) == kids[0].find(key));
    assert forall|x: PageId| #[trigger]
        a.pages().contains_key(x) && !(t.has(x) && a.own(x)) && !fresh(a, b, x) implies
        b.pages().contains_key(x) && b.pages()[x] == a.pages()[x] by {
        if kids[0].has(x) {
            crate::tree::lemma_branch_has(page, seps, kids, 0, x);
        }
    }
}

#[verifier::rlimit(60)]
proof fn lemma_merged_edit<'p, S: Storage>(
    b0: WriteBatch<'p, S>,
    b1: WriteBatch<'p, S>,
    b2: WriteBatch<'p, S>,
    page: PageId,
    seps: Seq<Seq<u8>>,
    kids: Seq<Tree>,
    idx: int,
    u: Tree,
    s2: Seq<Seq<u8>>,
    k2: Seq<Tree>,
    key: Seq<u8>,
    lo: Option<Seq<u8>>,
    hi: Option<Seq<u8>>,
)
    requires
        b0.wf(),
        extends(b0, b1),
        extends(b1, b2),
        extends(b0, b2),
        put_ready(b0, Tree::Branch(page, seps, kids), no_value(), lo, hi),
        idx == route(seps, key),
        0 <= idx < kids.len(),
        delete_done(
            b0,
            b1,
            kids[idx],
            key,
            Delete::Updated(u.root()),
            u,
            kid_lo(seps, lo, idx),
            kid_hi(seps, hi, idx),
        ),
        merge_done(b1, b2, page, seps, kids.update(idx, u), s2, k2, lo, hi),
    ensures
        Tree::Branch(page, seps, kids).find(key) is Some,
        branch_edit(b0, b2, Tree::Branch(page, seps, kids), page, key, s2, k2, lo, hi),
{
    let t = Tree::Branch(page, seps, kids);
    let kids1 = kids.update(idx, u);
    let mid = Tree::Branch(page, seps, kids1);
    let whole = Tree::Branch(page, s2, k2);
    lemma_child_replaced(b0, b1, page, seps, kids, idx, no_value(), u, lo, hi);
    lemma_siblings(b0, b1, page, seps, kids, idx, no_value(), u, lo, hi);
    lemma_extends_trans(b0, b1, b2);
    lemma_update_has(page, seps, kids, idx, u);
    assert forall|x: PageId| #[trigger] mid.has(x) implies t.has(x) || fresh(b0, b1, x) by {
        if u.has(x) && kids[idx].has(x) {
            crate::tree::lemma_branch_has(page, seps, kids, idx, x);
        }
    }
    assert forall|x: PageId| #[trigger] whole.has(x) implies t.has(x) || fresh(b0, b2, x) by {
        assert(mid.has(x) || fresh(b1, b2, x));
    }
    assert forall|x: PageId| #[trigger]
        b0.pages().contains_key(x) && !(t.has(x) && b0.own(x)) && !fresh(b0, b2, x) implies
        b2.pages().contains_key(x) && b2.pages()[x] == b0.pages()[x] by {
        assert(!fresh(b0, b1, x) && !fresh(b1, b2, x));
        if kids[idx].has(x) {
            crate::tree::lemma_branch_has(page, seps, kids, idx, x);
        }
        assert(b1.pages().contains_key(x) && b1.pages()[x] == b0.pages()[x]);
        assert(!(mid.has(x) && b1.own(x))) by {
            if mid.has(x) && b1.own(x) {
                assert(t.has(x) || fresh(b0, b1, x));
                assert(b0.own(x));
            }
        }
    }
    assert forall|k: Seq<u8>| #[trigger] whole.find(k) == (if k == key {
        None
    } else {
        t.find(k)
    }) by {
        assert(whole.find(k) == mid.find(k));
        lemma_route(seps, k);
        let n = route(seps, k);
        assert(mid.find(k) == kids1[n].find(k));
        assert(t.find(k) == kids[n].find(k));
        assert(u.find(k) == u.find(k));
    }
    assert(t.find(key) == kids[idx].find(key));
}

#[verifier::rlimit(60)]
proof fn lemma_dropped_edit<'p, S: Storage>(
    b0: WriteBatch<'p, S>,
    b1: WriteBatch<'p, S>,
    page: PageId,
    seps: Seq<Seq<u8>>,
    kids: Seq<Tree>,
    idx: int,
    key: Seq<u8>,
    lo: Option<Seq<u8>>,
    hi: Option<Seq<u8>>,
)
    requires
        b0.wf(),
        extends(b0, b1),
        put_ready(b0, Tree::Branch(page, seps, kids), no_value(), lo, hi),
        idx == route(seps, key),
        0 <= idx < kids.len(),
        seps.len() > 0,
        kids[idx].find(key) is Some,
        only_tree(b0, b1, kids[idx]),
        forall|k: Seq<u8>| k != key ==> (#[trigger] kids[idx].find(k)) is None,
    ensures
        Tree::Branch(page, seps, kids).find(key) is Some,
        branch_edit(
            b0,
            b1,
            Tree::Branch(page, seps, kids),
            page,
            key,
            seps.remove(sep_of(idx)),
            kids.remove(idx),
            lo,
            hi,
        ),
{
    let t = Tree::Branch(page, seps, kids);
    let s2 = seps.remove(sep_of(idx));
    let k2 = kids.remove(idx);
    let whole = Tree::Branch(page, s2, k2);
    lemma_child_dropped(b0, b1, page, seps, kids, idx, lo, hi);
    lemma_dropped_has(page, seps, kids, idx, s2);
    lemma_dropped_cells(seps, kids, idx);
    lemma_cells_remove_len(kid_cells(seps, kids), sep_of(idx));
    assert(node_len(t.node()) <= b0.size());
    assert forall|x: PageId| #[trigger]
        b0.pages().contains_key(x) && !(t.has(x) && b0.own(x)) && !fresh(b0, b1, x) implies
        b1.pages().contains_key(x) && b1.pages()[x] == b0.pages()[x] by {
        if kids[idx].has(x) {
            crate::tree::lemma_branch_has(page, seps, kids, idx, x);
        }
    }
    assert forall|k: Seq<u8>| #[trigger] whole.find(k) == (if k == key {
        None
    } else {
        t.find(k)
    }) by {
        lemma_dropped_find(page, seps, kids, idx, b0.size(), lo, hi, k);
        lemma_route(seps, k);
        let n = route(seps, k);
        assert(t.find(k) == kids[n].find(k));
        if n == idx && k != key {
            assert(kids[idx].find(k) is None);
        }
    }
    assert(t.find(key) == kids[idx].find(key));
}

/// Delete `key`. Returns the new root and whether the key existed.
#[verifier::rlimit(60)]
pub fn remove<'p, S: Storage>(batch: &mut WriteBatch<'p, S>, root: PageId, key: &[u8]) -> (r: Result<
    (PageId, bool),
>)
    requires
        old(batch).wf(),
    ensures
        final(batch).next() <= 3 * old(batch).next(),
        extends(*old(batch), *final(batch)),
        *final(final(batch).pager) == *final(old(batch).pager),
        editable(*old(batch), root) ==> match r {
            Ok((next, existed)) => {
                &&& edited(*old(batch), *final(batch), root, next)
                &&& finds_set(
                    tree_of(old(batch).pages(), old(batch).size(), root),
                    tree_of(final(batch).pages(), old(batch).size(), next),
                    key@,
                    None,
                )
                &&& existed == (ofind(tree_of(old(batch).pages(), old(batch).size(), root), key@)
                    is Some)
                &&& !existed ==> next == root && *final(batch) == *old(batch)
            },
            Err(_) => !old(batch).reliable() || final(batch).next() >= crate::page::MAX_PAGES,
        },
{
    let ps: u32 = batch.page_size();
    let ghost b0 = *batch;
    let ghost good = editable(b0, root);
    let ghost o = tree_of(b0.pages(), ps, root);
    let ghost t = o->0;
    proof {
        b0.lemma_facts();
        lemma_extends_self(b0);
        if good && root != NIL_PAGE {
            assert(tree_at(b0.pages(), ps, root, t));
            if key@.len() > max_key(ps) && t.find(key@) is Some {
                lemma_find_key_len(t, ps, None, None, key@);
            }
            assert forall|x: PageId| #[trigger] t.has(x) implies !b0.spare(x) by {
                assert(ohas(o, x));
            }
        }
    }
    if root == NIL_PAGE || key.len() > max_key_len(ps) {
        return Ok((root, false));
    }
    let fuel: u64 = batch.page_bound();
    proof {
        if good {
            lemma_tree_nodes(t, b0.pages(), ps, fuel);
        }
    }
    match delete_rec(batch, root, key, fuel, Ghost(t), Ghost(None), Ghost(None)) {
        Err(e) => Err(e),
        Ok((Delete::NotFound, g)) => Ok((root, false)),
        Ok((Delete::Updated(next), g)) => {
            proof {
                if good {
                    let u = g@;
                    let b1 = *batch;
                    lemma_tree_of(b1.pages(), ps, next, u);
                    assert forall|x: PageId| #[trigger] ohas(Some(u), x) implies ohas(o, x) || fresh(
                        b0,
                        b1,
                        x,
                    ) by {
                        assert(u.has(x));
                    }
                    assert forall|k: Seq<u8>| #[trigger] ofind(Some(u), k) == (if k == key@ {
                        None
                    } else {
                        ofind(o, k)
                    }) by {
                        assert(u.find(k) == u.find(k));
                    }
                    assert(only_otree(b0, b1, o)) by {
                        assert forall|x: PageId| #[trigger]
                            b0.pages().contains_key(x) && !(ohas(o, x) && b0.own(x)) && !fresh(
                                b0,
                                b1,
                                x,
                            ) implies b1.pages().contains_key(x) && b1.pages()[x] == b0.pages()[x] by {
                            assert(ohas(o, x) == t.has(x));
                        }
                    }
                }
            }
            Ok((next, true))
        },
        Ok((Delete::Emptied, g)) => {
            proof {
                if good {
                    let b1 = *batch;
                    assert forall|k: Seq<u8>| #[trigger] ofind(None, k) == (if k == key@ {
                        None
                    } else {
                        ofind(o, k)
                    }) by {
                        if k != key@ {
                            assert(t.find(k) is None);
                        }
                    }
                    assert(only_otree(b0, b1, o)) by {
                        assert forall|x: PageId| #[trigger]
                            b0.pages().contains_key(x) && !(ohas(o, x) && b0.own(x)) && !fresh(
                                b0,
                                b1,
                                x,
                            ) implies b1.pages().contains_key(x) && b1.pages()[x] == b0.pages()[x] by {
                            assert(ohas(o, x) == t.has(x));
                        }
                    }
                }
            }
            Ok((NIL_PAGE, true))
        },
    }
}

} // verus!
