//! The shape of a B-tree on pages, as a mathematical object.
//!
//! A [`Tree`] is what the pages under a root spell: which page each node is
//! on, which keys it holds, which values those stand for. Everything the
//! B-tree code promises is said in terms of it.

use vstd::prelude::*;

use crate::bytes::{u16_at, u64_at};
use crate::node::{
    lemma_node_of_frame, node_len, node_of, sorted, BranchCell, LeafCell, NodeV, VRef,
};
use crate::order::{lemma_lex_irrefl, lemma_lex_total, lemma_lex_trans, lex_le, lex_lt};
use crate::page::{PageId, PageType, NIL_PAGE};

verus! {

pub type Pages = Map<PageId, Seq<u8>>;

/// Longest allowed key.
pub open spec fn max_key(ps: u32) -> int {
    ps as int / 8
}

/// Longest value that lives inside its leaf.
pub open spec fn inline_limit(ps: u32) -> int {
    ps as int / 4
}

/// Bytes of a value one overflow page carries.
pub open spec fn chunk_len(ps: u32) -> int {
    ps - 26
}

/// Most pages an overflow chain for `len` bytes may have.
pub open spec fn chain_limit(len: int, ps: u32) -> int {
    if len == 0 {
        1
    } else {
        (len + chunk_len(ps) - 1) / chunk_len(ps)
    }
}

/// The link and the bytes that an overflow page holds, if it is one.
pub open spec fn part_of(b: Seq<u8>) -> Option<(PageId, Seq<u8>)> {
    if b[4] == PageType::Overflow.spec_code() && 26 + u16_at(b, 24) <= b.len() {
        Some((u64_at(b, 16), b.subrange(26, 26 + u16_at(b, 24))))
    } else {
        None
    }
}

/// Two pages that differ at most in checksum and lsn.
pub open spec fn same_page(a: Seq<u8>, b: Seq<u8>) -> bool {
    &&& a.len() == b.len()
    &&& a.subrange(4, 8) == b.subrange(4, 8)
    &&& a.subrange(16, a.len() as int) == b.subrange(16, b.len() as int)
}

pub proof fn lemma_part_of_frame(a: Seq<u8>, b: Seq<u8>)
    requires
        a.len() >= 26,
        same_page(a, b),
    ensures
        part_of(a) == part_of(b),
{
    assert(a.subrange(4, 8)[0] == a[4]);
    assert(b.subrange(4, 8)[0] == b[4]);
    let x = a.subrange(16, a.len() as int);
    let y = b.subrange(16, b.len() as int);
    assert(x.subrange(0, 8) =~= a.subrange(16, 24));
    assert(y.subrange(0, 8) =~= b.subrange(16, 24));
    assert(x.subrange(8, 10) =~= a.subrange(24, 26));
    assert(y.subrange(8, 10) =~= b.subrange(24, 26));
    let n = u16_at(a, 24) as int;
    if 26 + n <= a.len() {
        assert(x.subrange(10, 10 + n) =~= a.subrange(26, 26 + n));
        assert(y.subrange(10, 10 + n) =~= b.subrange(26, 26 + n));
    }
}

/// The pieces of a chain, put together.
pub open spec fn joined(p: Seq<(PageId, Seq<u8>)>) -> Seq<u8>
    decreases p.len(),
{
    if p.len() == 0 {
        Seq::empty()
    } else {
        p[0].1 + joined(p.skip(1))
    }
}

/// A value as stored: in the leaf, or on a chain of overflow pages.
#[verifier::ext_equal]
pub enum Stored {
    Inline(Seq<u8>),
    Chain(Seq<(PageId, Seq<u8>)>),
}

/// Where piece `i` of a chain links to.
pub open spec fn link(p: Seq<(PageId, Seq<u8>)>, i: int) -> PageId {
    if i + 1 < p.len() {
        p[i + 1].0
    } else {
        NIL_PAGE
    }
}

impl Stored {
    /// The value itself.
    pub open spec fn bytes(self) -> Seq<u8> {
        match self {
            Stored::Inline(v) => v,
            Stored::Chain(p) => joined(p),
        }
    }

    /// What the leaf cell says about it.
    pub open spec fn vref(self) -> VRef {
        match self {
            Stored::Inline(v) => VRef::Inline(v),
            Stored::Chain(p) => VRef::Overflow { head: p[0].0, len: joined(p).len() as u64 },
        }
    }

    /// Whether it uses page `x`.
    pub open spec fn has(self, x: PageId) -> bool {
        match self {
            Stored::Inline(v) => false,
            Stored::Chain(p) => exists|i: int| 0 <= i < p.len() && (#[trigger] p[i]).0 == x,
        }
    }

    /// Whether the pages spell it.
    pub open spec fn holds(self, pages: Pages, ps: u32) -> bool {
        match self {
            Stored::Inline(v) => true,
            Stored::Chain(p) => forall|i: int|
                0 <= i < p.len() ==> {
                    &&& pages.contains_key((#[trigger] p[i]).0)
                    &&& pages[p[i].0].len() == ps
                    &&& part_of(pages[p[i].0]) == Some((link(p, i), p[i].1))
                },
        }
    }

    pub open spec fn ok(self, ps: u32) -> bool {
        match self {
            Stored::Inline(v) => v.len() <= inline_limit(ps),
            Stored::Chain(p) => {
                &&& 0 < p.len() <= chain_limit(joined(p).len() as int, ps)
                &&& joined(p).len() <= u64::MAX
                &&& forall|i: int| 0 <= i < p.len() ==> (#[trigger] p[i]).0 >= 2 && p[i].1.len()
                    <= chunk_len(ps)
                &&& forall|i: int, j: int|
                    0 <= i < j < p.len() ==> (#[trigger] p[i]).0 != (#[trigger] p[j]).0
            },
        }
    }
}

pub type Entry = (Seq<u8>, Stored);

/// A tree on pages.
#[verifier::ext_equal]
pub enum Tree {
    /// Page and entries of a leaf.
    Leaf(PageId, Seq<Entry>),
    /// Page, separators and children of a branch.
    Branch(PageId, Seq<Seq<u8>>, Seq<Tree>),
}

/// Whether `k` is at or above `lo` and below `hi`.
pub open spec fn in_range(k: Seq<u8>, lo: Option<Seq<u8>>, hi: Option<Seq<u8>>) -> bool {
    &&& (lo matches Some(l) ==> lex_le(l, k))
    &&& (hi matches Some(h) ==> lex_lt(k, h))
}

/// How many separators are at or below `k`: the child that covers it.
pub open spec fn route(seps: Seq<Seq<u8>>, k: Seq<u8>) -> int
    decreases seps.len(),
{
    if seps.len() == 0 {
        0
    } else if lex_le(seps.last(), k) {
        seps.len() as int
    } else {
        route(seps.drop_last(), k)
    }
}

/// Lower bound of child `i`.
pub open spec fn kid_lo(seps: Seq<Seq<u8>>, lo: Option<Seq<u8>>, i: int) -> Option<Seq<u8>> {
    if i == 0 {
        lo
    } else {
        Some(seps[i - 1])
    }
}

/// Upper bound of child `i`.
pub open spec fn kid_hi(seps: Seq<Seq<u8>>, hi: Option<Seq<u8>>, i: int) -> Option<Seq<u8>> {
    if i < seps.len() {
        Some(seps[i])
    } else {
        hi
    }
}

/// Where `k` is in an entry list that has it.
pub open spec fn entry_index(e: Seq<Entry>, k: Seq<u8>) -> int {
    choose|i: int| 0 <= i < e.len() && (#[trigger] e[i]).0 == k
}

/// The value an entry list has for `k`.
pub open spec fn entries_find(e: Seq<Entry>, k: Seq<u8>) -> Option<Seq<u8>> {
    if exists|i: int| 0 <= i < e.len() && (#[trigger] e[i]).0 == k {
        Some(e[entry_index(e, k)].1.bytes())
    } else {
        None
    }
}

pub open spec fn entry_keys(e: Seq<Entry>) -> Seq<Seq<u8>> {
    Seq::new(e.len(), |i: int| e[i].0)
}

pub open spec fn entry_cells(e: Seq<Entry>) -> Seq<LeafCell> {
    Seq::new(e.len(), |i: int| (e[i].0, e[i].1.vref()))
}

pub open spec fn kid_cells(seps: Seq<Seq<u8>>, kids: Seq<Tree>) -> Seq<BranchCell> {
    Seq::new(seps.len(), |i: int| (seps[i], kids[i + 1].root()))
}

pub open spec fn disjoint(a: Tree, b: Tree) -> bool {
    forall|x: PageId| !(#[trigger] a.has(x) && #[trigger] b.has(x))
}

pub open spec fn values_disjoint(a: Stored, b: Stored) -> bool {
    forall|x: PageId| !(#[trigger] a.has(x) && #[trigger] b.has(x))
}

/// What holds of a leaf's entries.
pub open spec fn entries_ok(
    id: PageId,
    e: Seq<Entry>,
    ps: u32,
    lo: Option<Seq<u8>>,
    hi: Option<Seq<u8>>,
) -> bool {
    &&& sorted(entry_keys(e))
    &&& forall|i: int|
        0 <= i < e.len() ==> 0 < (#[trigger] e[i]).0.len() <= max_key(ps) && in_range(e[i].0, lo, hi)
            && e[i].1.ok(ps) && !e[i].1.has(id)
    &&& forall|i: int, j: int|
        0 <= i < j < e.len() ==> values_disjoint((#[trigger] e[i]).1, (#[trigger] e[j]).1)
}

/// What holds of a branch's separators.
pub open spec fn seps_ok(
    seps: Seq<Seq<u8>>,
    ps: u32,
    lo: Option<Seq<u8>>,
    hi: Option<Seq<u8>>,
) -> bool {
    &&& sorted(seps)
    &&& forall|i: int|
        0 <= i < seps.len() ==> (#[trigger] seps[i]).len() <= max_key(ps) && in_range(seps[i], lo, hi)
            && above(seps[i], lo)
}

/// Strictly above a lower bound.
pub open spec fn above(k: Seq<u8>, lo: Option<Seq<u8>>) -> bool {
    lo matches Some(l) ==> lex_lt(l, k)
}

impl Tree {
    pub open spec fn root(self) -> PageId {
        match self {
            Tree::Leaf(id, e) => id,
            Tree::Branch(id, seps, kids) => id,
        }
    }

    /// Whether the tree uses page `x`.
    pub open spec fn has(self, x: PageId) -> bool
        decreases self,
    {
        match self {
            Tree::Leaf(id, e) => x == id || exists|i: int|
                0 <= i < e.len() && (#[trigger] e[i]).1.has(x),
            Tree::Branch(id, seps, kids) => x == id || exists|i: int|
                0 <= i < kids.len() && (#[trigger] kids[i]).has(x),
        }
    }

    /// The node on the root page.
    pub open spec fn node(self) -> NodeV {
        match self {
            Tree::Leaf(id, e) => NodeV::Leaf(entry_cells(e)),
            Tree::Branch(id, seps, kids) => NodeV::Branch(kids[0].root(), kid_cells(seps, kids)),
        }
    }

    /// Whether the pages spell this tree.
    pub open spec fn holds(self, pages: Pages, ps: u32) -> bool
        decreases self,
    {
        &&& pages.contains_key(self.root())
        &&& pages[self.root()].len() == ps
        &&& node_of(pages[self.root()]) == Some(self.node())
        &&& match self {
            Tree::Leaf(id, e) => forall|i: int|
                0 <= i < e.len() ==> (#[trigger] e[i]).1.holds(pages, ps),
            Tree::Branch(id, seps, kids) => forall|i: int|
                0 <= i < kids.len() ==> (#[trigger] kids[i]).holds(pages, ps),
        }
    }

    /// Whether the tree keeps order, sizes and distinct pages, with all its
    /// keys between `lo` and `hi`.
    pub open spec fn ok(self, ps: u32, lo: Option<Seq<u8>>, hi: Option<Seq<u8>>) -> bool
        decreases self,
    {
        &&& self.root() >= 2
        &&& node_len(self.node()) <= ps
        &&& match self {
            Tree::Leaf(id, e) => entries_ok(id, e, ps, lo, hi),
            Tree::Branch(id, seps, kids) => {
                &&& kids.len() == seps.len() + 1
                &&& seps_ok(seps, ps, lo, hi)
                &&& forall|i: int|
                    0 <= i < kids.len() ==> (#[trigger] kids[i]).ok(
                        ps,
                        kid_lo(seps, lo, i),
                        kid_hi(seps, hi, i),
                    ) && !kids[i].has(id)
                &&& forall|i: int, j: int|
                    0 <= i < j < kids.len() ==> disjoint(#[trigger] kids[i], #[trigger] kids[j])
            },
        }
    }

    /// The value the tree has for `k`.
    pub open spec fn find(self, k: Seq<u8>) -> Option<Seq<u8>>
        decreases self,
    {
        match self {
            Tree::Leaf(id, e) => entries_find(e, k),
            Tree::Branch(id, seps, kids) => if 0 <= route(seps, k) < kids.len() {
                kids[route(seps, k)].find(k)
            } else {
                None
            },
        }
    }

    /// How many nodes the tree has.
    pub open spec fn nodes(self) -> nat
        decreases self,
    {
        match self {
            Tree::Leaf(id, e) => 1,
            Tree::Branch(id, seps, kids) => 1 + nodes_of(kids),
        }
    }

    /// All keys and values, in order.
    pub open spec fn items(self) -> Seq<(Seq<u8>, Seq<u8>)>
        decreases self,
    {
        match self {
            Tree::Leaf(id, e) => entry_items(e),
            Tree::Branch(id, seps, kids) => items_of(kids),
        }
    }
}

pub open spec fn entry_items(e: Seq<Entry>) -> Seq<(Seq<u8>, Seq<u8>)> {
    Seq::new(e.len(), |i: int| (e[i].0, e[i].1.bytes()))
}

pub open spec fn nodes_of(kids: Seq<Tree>) -> nat
    decreases kids,
{
    if kids.len() == 0 {
        0
    } else {
        kids[0].nodes() + nodes_of(kids.subrange(1, kids.len() as int))
    }
}

pub open spec fn items_of(kids: Seq<Tree>) -> Seq<(Seq<u8>, Seq<u8>)>
    decreases kids,
{
    if kids.len() == 0 {
        Seq::empty()
    } else {
        kids[0].items() + items_of(kids.subrange(1, kids.len() as int))
    }
}

/// The tree at a root: sound, and spelled by the pages.
pub open spec fn tree_at(pages: Pages, ps: u32, root: PageId, t: Tree) -> bool {
    &&& t.root() == root
    &&& t.holds(pages, ps)
    &&& t.ok(ps, None, None)
}

/// A root that is nil or has a sound tree under it.
pub open spec fn sound_root(pages: Pages, ps: u32, root: PageId) -> bool {
    root == NIL_PAGE || exists|t: Tree| #[trigger] tree_at(pages, ps, root, t)
}

/// The tree under a sound root; none under nil.
pub open spec fn tree_of(pages: Pages, ps: u32, root: PageId) -> Option<Tree> {
    if root == NIL_PAGE {
        None
    } else {
        Some(choose|t: Tree| #[trigger] tree_at(pages, ps, root, t))
    }
}

/// Whether a possibly empty tree uses page `x`.
pub open spec fn ohas(o: Option<Tree>, x: PageId) -> bool {
    o matches Some(t) && t.has(x)
}

/// The value a possibly empty tree has for `k`.
pub open spec fn ofind(o: Option<Tree>, k: Seq<u8>) -> Option<Seq<u8>> {
    match o {
        Some(t) => t.find(k),
        None => None,
    }
}

/// All keys and values of a possibly empty tree, as a map.
pub open spec fn map_of(o: Option<Tree>) -> Map<Seq<u8>, Seq<u8>> {
    Map::new(|k: Seq<u8>| ofind(o, k) is Some, |k: Seq<u8>| ofind(o, k)->0)
}

/// What is stored under a root, as a map.
pub open spec fn contents(pages: Pages, ps: u32, root: PageId) -> Map<Seq<u8>, Seq<u8>> {
    map_of(tree_of(pages, ps, root))
}

pub proof fn lemma_tree_of(pages: Pages, ps: u32, root: PageId, t: Tree)
    requires
        tree_at(pages, ps, root, t),
    ensures
        root != NIL_PAGE,
        sound_root(pages, ps, root),
        tree_of(pages, ps, root) == Some(t),
{
    let u = choose|u: Tree| #[trigger] tree_at(pages, ps, root, u);
    lemma_tree_unique(t, u, pages, ps, None, None, None, None);
}

// ---------------------------------------------------------------------
// routing
// ---------------------------------------------------------------------

pub proof fn lemma_route(seps: Seq<Seq<u8>>, k: Seq<u8>)
    requires
        sorted(seps),
    ensures
        0 <= route(seps, k) <= seps.len(),
        forall|j: int| 0 <= j < route(seps, k) ==> lex_le(#[trigger] seps[j], k),
        forall|j: int| route(seps, k) <= j < seps.len() ==> lex_lt(k, #[trigger] seps[j]),
    decreases seps.len(),
{
    if seps.len() > 0 {
        let last = seps.last();
        lemma_lex_total(last, k);
        if lex_le(last, k) {
            assert forall|j: int| 0 <= j < seps.len() implies lex_le(#[trigger] seps[j], k) by {
                if j < seps.len() - 1 {
                    assert(lex_lt(seps[j], seps[seps.len() - 1]));
                    if last != k {
                        lemma_lex_trans(seps[j], last, k);
                    }
                }
            }
        } else {
            let init = seps.drop_last();
            assert forall|i: int, j: int| 0 <= i < j < init.len() implies lex_lt(
                #[trigger] init[i],
                #[trigger] init[j],
            ) by {
                assert(init[i] == seps[i] && init[j] == seps[j]);
            }
            lemma_route(init, k);
            assert forall|j: int| route(seps, k) <= j < seps.len() implies lex_lt(
                k,
                #[trigger] seps[j],
            ) by {
                if j < init.len() {
                    assert(init[j] == seps[j]);
                }
            }
            assert forall|j: int| 0 <= j < route(seps, k) implies lex_le(#[trigger] seps[j], k) by {
                assert(init[j] == seps[j]);
            }
        }
    }
}

/// The place that splits the separators at `k` is the route.
pub proof fn lemma_route_is(seps: Seq<Seq<u8>>, k: Seq<u8>, idx: int)
    requires
        sorted(seps),
        0 <= idx <= seps.len(),
        idx > 0 ==> lex_le(seps[idx - 1], k),
        idx < seps.len() ==> lex_lt(k, seps[idx]),
    ensures
        route(seps, k) == idx,
{
    lemma_route(seps, k);
    let r = route(seps, k);
    if r < idx {
        assert(lex_lt(k, seps[idx - 1]));
        lemma_lex_facts2(seps[idx - 1], k);
    }
    if idx < r {
        assert(lex_le(seps[idx], k));
        lemma_lex_facts2(seps[idx], k);
    }
}

/// Not both at or below and above.
pub proof fn lemma_lex_facts2(a: Seq<u8>, b: Seq<u8>)
    ensures
        !(lex_le(a, b) && lex_lt(b, a)),
        lex_le(a, b) || lex_lt(b, a),
{
    lemma_lex_total(a, b);
    lemma_lex_irrefl(a);
    if lex_lt(a, b) && lex_lt(b, a) {
        lemma_lex_trans(a, b, a);
    }
}

pub proof fn lemma_entries_find(e: Seq<Entry>, k: Seq<u8>, i: int)
    requires
        sorted(entry_keys(e)),
        0 <= i < e.len(),
        e[i].0 == k,
    ensures
        entries_find(e, k) == Some(e[i].1.bytes()),
{
    assert(exists|i: int| 0 <= i < e.len() && (#[trigger] e[i]).0 == k);
    let j = entry_index(e, k);
    assert(0 <= j < e.len() && e[j].0 == k);
    lemma_lex_irrefl(k);
    let ks = entry_keys(e);
    assert(ks[i] == k && ks[j] == k);
    assert(i == j);
}

/// A tree knows nothing outside its range.
pub proof fn lemma_find_in_range(
    t: Tree,
    ps: u32,
    lo: Option<Seq<u8>>,
    hi: Option<Seq<u8>>,
    k: Seq<u8>,
)
    requires
        t.ok(ps, lo, hi),
        !in_range(k, lo, hi),
    ensures
        t.find(k) is None,
    decreases t,
{
    match t {
        Tree::Leaf(id, e) => {},
        Tree::Branch(id, seps, kids) => {
            lemma_route(seps, k);
            let r = route(seps, k);
            let klo = kid_lo(seps, lo, r);
            let khi = kid_hi(seps, hi, r);
            assert(!in_range(k, klo, khi)) by {
                if lo is Some && !lex_le(lo->0, k) {
                    lemma_lex_facts2(lo->0, k);
                    if r > 0 {
                        assert(lex_le(seps[r - 1], k));
                        assert(in_range(seps[r - 1], lo, hi));
                        lemma_lex_facts2(seps[r - 1], k);
                        if lo->0 != seps[r - 1] && seps[r - 1] != k {
                            lemma_lex_trans(lo->0, seps[r - 1], k);
                        }
                    }
                } else {
                    let h = hi->0;
                    lemma_lex_facts2(h, k);
                    if r < seps.len() {
                        assert(lex_lt(k, seps[r]));
                        assert(in_range(seps[r], lo, hi));
                        lemma_lex_trans(k, seps[r], h);
                    }
                }
            }
            assert(kids[r].ok(ps, klo, khi));
            lemma_find_in_range(kids[r], ps, klo, khi, k);
        },
    }
}

/// Widening the range keeps a tree sound.
pub proof fn lemma_ok_widen(
    t: Tree,
    ps: u32,
    lo: Option<Seq<u8>>,
    hi: Option<Seq<u8>>,
    lo2: Option<Seq<u8>>,
    hi2: Option<Seq<u8>>,
)
    requires
        t.ok(ps, lo, hi),
        lo2 matches Some(l2) ==> lo matches Some(l) && lex_le(l2, l),
        hi2 matches Some(h2) ==> hi matches Some(h) && lex_le(h, h2),
    ensures
        t.ok(ps, lo2, hi2),
    decreases t,
{
    assert forall|k: Seq<u8>| in_range(k, lo, hi) implies #[trigger] in_range(k, lo2, hi2) by {
        if let Some(l2) = lo2 {
            if l2 != lo->0 && lo->0 != k {
                lemma_lex_trans(l2, lo->0, k);
            }
        }
        if let Some(h2) = hi2 {
            if hi->0 != h2 {
                lemma_lex_trans(k, hi->0, h2);
            }
        }
    }
    match t {
        Tree::Leaf(id, e) => {},
        Tree::Branch(id, seps, kids) => {
            assert forall|i: int| 0 <= i < seps.len() implies (#[trigger] seps[i]).len() <= max_key(ps)
                && in_range(seps[i], lo2, hi2) && above(seps[i], lo2) by {
                assert(in_range(seps[i], lo, hi));
                if let Some(l2) = lo2 {
                    if l2 != lo->0 {
                        lemma_lex_trans(l2, lo->0, seps[i]);
                    }
                }
            }
            assert forall|i: int| 0 <= i < kids.len() implies (#[trigger] kids[i]).ok(
                ps,
                kid_lo(seps, lo2, i),
                kid_hi(seps, hi2, i),
            ) && !kids[i].has(id) by {
                if 0 < i {
                    lemma_lex_irrefl(seps[i - 1]);
                }
                lemma_ok_widen(
                    kids[i],
                    ps,
                    kid_lo(seps, lo, i),
                    kid_hi(seps, hi, i),
                    kid_lo(seps, lo2, i),
                    kid_hi(seps, hi2, i),
                );
            }
        },
    }
}

// ---------------------------------------------------------------------
// frames
// ---------------------------------------------------------------------

/// The pages of `t` read the same, but for checksum and lsn.
pub open spec fn agree_on(t: Tree, a: Pages, b: Pages) -> bool {
    forall|x: PageId|
        #[trigger] t.has(x) && a.contains_key(x) ==> b.contains_key(x) && same_page(a[x], b[x])
}

pub proof fn lemma_stored_frame(s: Stored, a: Pages, b: Pages, ps: u32)
    requires
        s.holds(a, ps),
        ps >= 26,
        forall|x: PageId|
            #[trigger] s.has(x) && a.contains_key(x) ==> b.contains_key(x) && same_page(a[x], b[x]),
    ensures
        s.holds(b, ps),
{
    match s {
        Stored::Inline(v) => {},
        Stored::Chain(p) => {
            assert forall|i: int| 0 <= i < p.len() implies {
                &&& b.contains_key((#[trigger] p[i]).0)
                &&& b[p[i].0].len() == ps
                &&& part_of(b[p[i].0]) == Some((link(p, i), p[i].1))
            } by {
                assert(s.has(p[i].0));
                lemma_part_of_frame(a[p[i].0], b[p[i].0]);
            }
        },
    }
}

/// What other pages do does not concern a tree.
pub proof fn lemma_frame(t: Tree, a: Pages, b: Pages, ps: u32)
    requires
        t.holds(a, ps),
        ps >= 26,
        agree_on(t, a, b),
    ensures
        t.holds(b, ps),
    decreases t,
{
    assert(t.has(t.root()));
    lemma_node_of_frame(a[t.root()], b[t.root()]);
    match t {
        Tree::Leaf(id, e) => {
            assert forall|i: int| 0 <= i < e.len() implies (#[trigger] e[i]).1.holds(b, ps) by {
                assert forall|x: PageId| #[trigger] e[i].1.has(x) && a.contains_key(x) implies
                    b.contains_key(x) && same_page(a[x], b[x]) by {
                    assert(t.has(x));
                }
                lemma_stored_frame(e[i].1, a, b, ps);
            }
        },
        Tree::Branch(id, seps, kids) => {
            assert forall|i: int| 0 <= i < kids.len() implies (#[trigger] kids[i]).holds(b, ps) by {
                assert forall|x: PageId| #[trigger] kids[i].has(x) && a.contains_key(x) implies
                    b.contains_key(x) && same_page(a[x], b[x]) by {
                    assert(t.has(x));
                }
                lemma_frame(kids[i], a, b, ps);
            }
        },
    }
}

/// The pages of an entry are pages of its leaf.
pub proof fn lemma_leaf_has(id: PageId, e: Seq<Entry>, i: int, x: PageId)
    requires
        0 <= i < e.len(),
        e[i].1.has(x),
    ensures
        Tree::Leaf(id, e).has(x),
{
    let t = Tree::Leaf(id, e);
    match t {
        Tree::Leaf(a, b) => {
            assert(b[i].1.has(x));
            assert(exists|i: int| 0 <= i < b.len() && (#[trigger] b[i]).1.has(x));
            assert(t.has(x));
        },
        Tree::Branch(a, b, c) => {},
    }
}

/// The pages of a child are pages of its branch.
pub proof fn lemma_branch_has(id: PageId, seps: Seq<Seq<u8>>, kids: Seq<Tree>, i: int, x: PageId)
    requires
        0 <= i < kids.len(),
        kids[i].has(x),
    ensures
        Tree::Branch(id, seps, kids).has(x),
{
    let t = Tree::Branch(id, seps, kids);
    match t {
        Tree::Leaf(a, b) => {},
        Tree::Branch(a, b, c) => {
            assert(c[i].has(x));
            assert(exists|i: int| 0 <= i < c.len() && (#[trigger] c[i]).has(x));
            assert(t.has(x));
        },
    }
}

/// Every page of a tree is a page.
pub proof fn lemma_has_page(t: Tree, pages: Pages, ps: u32, x: PageId)
    requires
        t.holds(pages, ps),
        t.has(x),
    ensures
        pages.contains_key(x),
    decreases t,
{
    match t {
        Tree::Leaf(id, e) => {
            if x != id {
                let i = choose|i: int| 0 <= i < e.len() && (#[trigger] e[i]).1.has(x);
                assert(e[i].1.holds(pages, ps));
                match e[i].1 {
                    Stored::Inline(v) => {},
                    Stored::Chain(p) => {
                        let j = choose|j: int| 0 <= j < p.len() && (#[trigger] p[j]).0 == x;
                        assert(pages.contains_key(p[j].0));
                    },
                }
            }
        },
        Tree::Branch(id, seps, kids) => {
            if x != id {
                let i = choose|i: int| 0 <= i < kids.len() && (#[trigger] kids[i]).has(x);
                assert(kids[i].holds(pages, ps));
                lemma_has_page(kids[i], pages, ps, x);
            }
        },
    }
}

// ---------------------------------------------------------------------
// one tree per root
// ---------------------------------------------------------------------

proof fn lemma_chain_unique(
    p: Seq<(PageId, Seq<u8>)>,
    q: Seq<(PageId, Seq<u8>)>,
    pages: Pages,
    ps: u32,
    n: int,
)
    requires
        Stored::Chain(p).holds(pages, ps),
        Stored::Chain(q).holds(pages, ps),
        Stored::Chain(p).ok(ps),
        Stored::Chain(q).ok(ps),
        p[0].0 == q[0].0,
        0 <= n <= p.len(),
    ensures
        n <= q.len(),
        forall|i: int| 0 <= i < n ==> p[i] == #[trigger] q[i],
    decreases n,
{
    if n > 0 {
        lemma_chain_unique(p, q, pages, ps, n - 1);
        if n == 1 {
            assert(p[0].0 == q[0].0);
        } else {
            assert(p[n - 2] == q[n - 2]);
            assert(link(p, n - 2) == p[n - 1].0);
            assert(p[n - 1].0 >= 2);
            assert(part_of(pages[q[n - 2].0]) == Some((link(q, n - 2), q[n - 2].1)));
            assert(link(q, n - 2) == p[n - 1].0);
            assert(n - 1 < q.len());
        }
        assert(part_of(pages[p[n - 1].0]) == Some((link(p, n - 1), p[n - 1].1)));
        assert(part_of(pages[q[n - 1].0]) == Some((link(q, n - 1), q[n - 1].1)));
        assert(p[n - 1] == q[n - 1]);
        assert forall|i: int| 0 <= i < n implies p[i] == #[trigger] q[i] by {
            if i < n - 1 {
                assert(p[i] == q[i]);
            }
        }
    }
}

pub proof fn lemma_stored_unique(a: Stored, b: Stored, pages: Pages, ps: u32)
    requires
        a.holds(pages, ps),
        b.holds(pages, ps),
        a.ok(ps),
        b.ok(ps),
        a.vref() == b.vref(),
    ensures
        a == b,
{
    match (a, b) {
        (Stored::Chain(p), Stored::Chain(q)) => {
            lemma_chain_unique(p, q, pages, ps, p.len() as int);
            lemma_chain_unique(q, p, pages, ps, q.len() as int);
            assert(p =~= q);
        },
        _ => {},
    }
}

/// Pages spell at most one tree under a root.
pub proof fn lemma_tree_unique(
    a: Tree,
    b: Tree,
    pages: Pages,
    ps: u32,
    alo: Option<Seq<u8>>,
    ahi: Option<Seq<u8>>,
    blo: Option<Seq<u8>>,
    bhi: Option<Seq<u8>>,
)
    requires
        a.holds(pages, ps),
        b.holds(pages, ps),
        a.ok(ps, alo, ahi),
        b.ok(ps, blo, bhi),
        a.root() == b.root(),
    ensures
        a == b,
    decreases a,
{
    assert(a.node() == b.node());
    match (a, b) {
        (Tree::Leaf(i, e), Tree::Leaf(j, f)) => {
            assert(entry_cells(e) == entry_cells(f));
            assert(e.len() == f.len());
            assert forall|n: int| 0 <= n < e.len() implies e[n] == #[trigger] f[n] by {
                assert(entry_cells(e)[n] == entry_cells(f)[n]);
                assert(e[n].1.holds(pages, ps) && f[n].1.holds(pages, ps));
                lemma_stored_unique(e[n].1, f[n].1, pages, ps);
            }
            assert(e =~= f);
        },
        (Tree::Branch(i, s, kids), Tree::Branch(j, r, kidz)) => {
            assert(kid_cells(s, kids) == kid_cells(r, kidz));
            assert(s.len() == r.len());
            assert forall|n: int| 0 <= n < s.len() implies s[n] == #[trigger] r[n] by {
                assert(kid_cells(s, kids)[n] == kid_cells(r, kidz)[n]);
            }
            assert(s =~= r);
            assert forall|n: int| 0 <= n < kids.len() implies kids[n] == #[trigger] kidz[n] by {
                if n > 0 {
                    assert(kid_cells(s, kids)[n - 1] == kid_cells(r, kidz)[n - 1]);
                }
                assert(kids[n].root() == kidz[n].root());
                assert(kids[n].holds(pages, ps) && kidz[n].holds(pages, ps));
                lemma_tree_unique(
                    kids[n],
                    kidz[n],
                    pages,
                    ps,
                    kid_lo(s, alo, n),
                    kid_hi(s, ahi, n),
                    kid_lo(r, blo, n),
                    kid_hi(r, bhi, n),
                );
            }
            assert(kids =~= kidz);
        },
        _ => {},
    }
}

// ---------------------------------------------------------------------
// how many pages
// ---------------------------------------------------------------------

pub open spec fn below(n: nat) -> Set<PageId> {
    Set::new(|x: PageId| x < n)
}

pub proof fn lemma_below(n: nat)
    requires
        n <= 0x1_0000_0000_0000_0000,
    ensures
        below(n).finite(),
        below(n).len() == n,
    decreases n,
{
    if n == 0 {
        assert(below(0) =~= Set::empty());
    } else {
        lemma_below((n - 1) as nat);
        assert(below(n) =~= below((n - 1) as nat).insert((n - 1) as PageId));
    }
}

/// The pages of a tree.
pub open spec fn ids(t: Tree) -> Set<PageId> {
    Set::new(|x: PageId| t.has(x))
}

pub open spec fn ids_of(kids: Seq<Tree>) -> Set<PageId> {
    Set::new(|x: PageId| exists|i: int| 0 <= i < kids.len() && (#[trigger] kids[i]).has(x))
}

proof fn lemma_nodes_of_bound(
    kids: Seq<Tree>,
    ps: u32,
    bound: nat,
    seps: Seq<Seq<u8>>,
    lo: Option<Seq<u8>>,
    hi: Option<Seq<u8>>,
    at: int,
)
    requires
        bound <= 0x1_0000_0000_0000_0000,
        forall|i: int|
            0 <= i < kids.len() ==> (#[trigger] kids[i]).ok(
                ps,
                kid_lo(seps, lo, at + i),
                kid_hi(seps, hi, at + i),
            ),
        forall|i: int, j: int|
            0 <= i < j < kids.len() ==> disjoint(#[trigger] kids[i], #[trigger] kids[j]),
        forall|i: int, x: PageId| 0 <= i < kids.len() && #[trigger] kids[i].has(x) ==> x < bound,
    ensures
        ids_of(kids).finite(),
        nodes_of(kids) <= ids_of(kids).len(),
    decreases kids,
{
    if kids.len() == 0 {
        assert(ids_of(kids) =~= Set::empty());
    } else {
        let rest = kids.subrange(1, kids.len() as int);
        assert forall|i: int| 0 <= i < rest.len() implies (#[trigger] rest[i]).ok(
            ps,
            kid_lo(seps, lo, at + 1 + i),
            kid_hi(seps, hi, at + 1 + i),
        ) by {
            assert(rest[i] == kids[i + 1]);
        }
        assert forall|i: int, j: int| 0 <= i < j < rest.len() implies disjoint(
            #[trigger] rest[i],
            #[trigger] rest[j],
        ) by {
            assert(rest[i] == kids[i + 1] && rest[j] == kids[j + 1]);
        }
        assert forall|i: int, x: PageId|
            0 <= i < rest.len() && #[trigger] rest[i].has(x) implies x < bound by {
            assert(kids[i + 1].has(x));
        }
        assert(kids[0].ok(ps, kid_lo(seps, lo, at), kid_hi(seps, hi, at)));
        assert forall|x: PageId| #[trigger] kids[0].has(x) implies x < bound by {}
        lemma_nodes_bound(kids[0], ps, bound, kid_lo(seps, lo, at), kid_hi(seps, hi, at));
        lemma_nodes_of_bound(rest, ps, bound, seps, lo, hi, at + 1);
        let a = ids(kids[0]);
        let b = ids_of(rest);
        assert(ids_of(kids) =~= a.union(b)) by {
            assert forall|x: PageId| ids_of(kids).contains(x) implies a.union(b).contains(x) by {
                let i = choose|i: int| 0 <= i < kids.len() && (#[trigger] kids[i]).has(x);
                if i > 0 {
                    assert(rest[i - 1].has(x));
                }
            }
            assert forall|x: PageId| a.union(b).contains(x) implies ids_of(kids).contains(x) by {
                if a.contains(x) {
                    assert(kids[0].has(x));
                } else {
                    let i = choose|i: int| 0 <= i < rest.len() && (#[trigger] rest[i]).has(x);
                    assert(kids[i + 1].has(x));
                }
            }
        }
        assert(a.disjoint(b)) by {
            assert forall|x: PageId| !(a.contains(x) && b.contains(x)) by {
                if a.contains(x) && b.contains(x) {
                    let i = choose|i: int| 0 <= i < rest.len() && (#[trigger] rest[i]).has(x);
                    assert(disjoint(kids[0], kids[i + 1]));
                    assert(kids[0].has(x) && kids[i + 1].has(x));
                }
            }
        }
        vstd::set_lib::lemma_set_disjoint_lens(a, b);
    }
}

/// A tree has no more nodes than pages.
pub proof fn lemma_nodes_bound(
    t: Tree,
    ps: u32,
    bound: nat,
    lo: Option<Seq<u8>>,
    hi: Option<Seq<u8>>,
)
    requires
        bound <= 0x1_0000_0000_0000_0000,
        t.ok(ps, lo, hi),
        forall|x: PageId| #[trigger] t.has(x) ==> x < bound,
    ensures
        ids(t).finite(),
        t.nodes() <= ids(t).len(),
        t.nodes() <= bound,
    decreases t,
{
    lemma_below(bound);
    assert(ids(t).subset_of(below(bound)));
    vstd::set_lib::lemma_len_subset(ids(t), below(bound));
    match t {
        Tree::Leaf(id, e) => {
            assert(ids(t).contains(id)) by {
                assert(t.has(id));
            }
            vstd::set_lib::lemma_len_subset(set![id], ids(t));
        },
        Tree::Branch(id, seps, kids) => {
            assert forall|i: int, x: PageId|
                0 <= i < kids.len() && #[trigger] kids[i].has(x) implies x < bound by {
                assert(t.has(x));
            }
            lemma_nodes_of_bound(kids, ps, bound, seps, lo, hi, 0);
            let b = ids_of(kids);
            assert(!b.contains(id)) by {
                if b.contains(id) {
                    let i = choose|i: int| 0 <= i < kids.len() && (#[trigger] kids[i]).has(id);
                    assert(kids[i].ok(ps, kid_lo(seps, lo, i), kid_hi(seps, hi, i)));
                }
            }
            assert(ids(t) =~= b.insert(id)) by {
                assert forall|x: PageId| ids(t).contains(x) == b.insert(id).contains(x) by {}
            }
        },
    }
}

/// Fewer nodes in a child than in its parent.
pub proof fn lemma_kid_nodes(kids: Seq<Tree>, i: int)
    requires
        0 <= i < kids.len(),
    ensures
        kids[i].nodes() <= nodes_of(kids),
    decreases i,
{
    if i > 0 {
        lemma_kid_nodes(kids.subrange(1, kids.len() as int), i - 1);
    }
}

// ---------------------------------------------------------------------
// values
// ---------------------------------------------------------------------

pub proof fn lemma_joined_push(p: Seq<(PageId, Seq<u8>)>, c: (PageId, Seq<u8>))
    ensures
        joined(p.push(c)) == joined(p) + c.1,
    decreases p.len(),
{
    if p.len() == 0 {
        reveal_with_fuel(joined, 2);
        assert(p.push(c).skip(1) =~= Seq::empty());
        assert(joined(p.push(c)) =~= c.1);
        assert(joined(p) + c.1 =~= c.1);
    } else {
        lemma_joined_push(p.skip(1), c);
        assert(p.push(c).skip(1) =~= p.skip(1).push(c));
        assert(p[0].1 + (joined(p.skip(1)) + c.1) =~= joined(p) + c.1);
    }
}

pub proof fn lemma_joined_take(p: Seq<(PageId, Seq<u8>)>, i: int)
    requires
        0 <= i < p.len(),
    ensures
        joined(p.take(i + 1)) == joined(p.take(i)) + p[i].1,
{
    lemma_joined_push(p.take(i), p[i]);
    assert(p.take(i + 1) =~= p.take(i).push(p[i]));
}

/// A chain has no more pages than the file.
pub proof fn lemma_chain_len(p: Seq<(PageId, Seq<u8>)>, bound: nat)
    requires
        bound <= 0x1_0000_0000_0000_0000,
        forall|i: int| 0 <= i < p.len() ==> (#[trigger] p[i]).0 < bound,
        forall|i: int, j: int|
            0 <= i < j < p.len() ==> (#[trigger] p[i]).0 != (#[trigger] p[j]).0,
    ensures
        p.len() <= bound,
{
    let q = Seq::new(p.len(), |i: int| p[i].0);
    assert(q.no_duplicates()) by {
        assert forall|i: int, j: int| 0 <= i < q.len() && 0 <= j < q.len() && i != j implies q[i]
            != q[j] by {
            if i < j {
                assert(p[i].0 != p[j].0);
            } else {
                assert(p[j].0 != p[i].0);
            }
        }
    }
    q.unique_seq_to_set();
    lemma_below(bound);
    assert(q.to_set().subset_of(below(bound))) by {
        assert forall|x: PageId| q.to_set().contains(x) implies below(bound).contains(x) by {
            let i = choose|i: int| 0 <= i < q.len() && q[i] == x;
            assert(p[i].0 == x);
        }
    }
    vstd::set_lib::lemma_len_subset(q.to_set(), below(bound));
}

/// Only keys of a legal length are ever found.
pub proof fn lemma_find_key_len(t: Tree, ps: u32, lo: Option<Seq<u8>>, hi: Option<Seq<u8>>, k: Seq<u8>)
    requires
        t.ok(ps, lo, hi),
        t.find(k) is Some,
    ensures
        0 < k.len() <= max_key(ps),
    decreases t,
{
    match t {
        Tree::Leaf(id, e) => {
            let i = entry_index(e, k);
            assert(e[i].0 == k);
        },
        Tree::Branch(id, seps, kids) => {
            lemma_route(seps, k);
            let r = route(seps, k);
            assert(kids[r].ok(ps, kid_lo(seps, lo, r), kid_hi(seps, hi, r)));
            lemma_find_key_len(kids[r], ps, kid_lo(seps, lo, r), kid_hi(seps, hi, r), k);
        },
    }
}

// ---------------------------------------------------------------------
// editing branches
// ---------------------------------------------------------------------

pub proof fn lemma_sorted_insert(seps: Seq<Seq<u8>>, i: int, s: Seq<u8>)
    requires
        sorted(seps),
        0 <= i <= seps.len(),
        i > 0 ==> lex_lt(seps[i - 1], s),
        i < seps.len() ==> lex_lt(s, seps[i]),
    ensures
        sorted(seps.insert(i, s)),
{
    let t = seps.insert(i, s);
    assert forall|a: int, b: int| 0 <= a < b < t.len() implies lex_lt(
        #[trigger] t[a],
        #[trigger] t[b],
    ) by {
        if b < i {
            assert(t[a] == seps[a] && t[b] == seps[b]);
        } else if b == i {
            assert(t[a] == seps[a]);
            if a < i - 1 {
                assert(lex_lt(seps[a], seps[i - 1]));
                lemma_lex_trans(seps[a], seps[i - 1], s);
            }
        } else if a < i {
            assert(t[a] == seps[a] && t[b] == seps[b - 1]);
        } else if a == i {
            assert(t[b] == seps[b - 1]);
            if b - 1 > i {
                assert(lex_lt(seps[i], seps[b - 1]));
                lemma_lex_trans(s, seps[i], seps[b - 1]);
            }
        } else {
            assert(t[a] == seps[a - 1] && t[b] == seps[b - 1]);
        }
    }
}

pub proof fn lemma_sorted_remove(seps: Seq<Seq<u8>>, i: int)
    requires
        sorted(seps),
        0 <= i < seps.len(),
    ensures
        sorted(seps.remove(i)),
{
    let t = seps.remove(i);
    assert forall|a: int, b: int| 0 <= a < b < t.len() implies lex_lt(
        #[trigger] t[a],
        #[trigger] t[b],
    ) by {
        let x = if a < i {
            a
        } else {
            a + 1
        };
        let y = if b < i {
            b
        } else {
            b + 1
        };
        assert(t[a] == seps[x] && t[b] == seps[y]);
    }
}

/// Where keys go once a separator has been put in.
pub proof fn lemma_route_insert(seps: Seq<Seq<u8>>, i: int, s: Seq<u8>, k: Seq<u8>)
    requires
        sorted(seps),
        0 <= i <= seps.len(),
        i > 0 ==> lex_lt(seps[i - 1], s),
        i < seps.len() ==> lex_lt(s, seps[i]),
    ensures
        route(seps.insert(i, s), k) == (if route(seps, k) < i {
            route(seps, k)
        } else if route(seps, k) > i {
            route(seps, k) + 1
        } else if lex_lt(k, s) {
            i
        } else {
            i + 1
        }),
{
    let t = seps.insert(i, s);
    lemma_sorted_insert(seps, i, s);
    lemma_route(seps, k);
    let r = route(seps, k);
    lemma_lex_facts2(s, k);
    if r < i {
        assert(r > 0 ==> t[r - 1] == seps[r - 1]);
        assert(t[r] == seps[r]);
        lemma_route_is(t, k, r);
    } else if r > i {
        assert(t[r] == seps[r - 1]);
        assert(r < seps.len() ==> t[r + 1] == seps[r]);
        lemma_route_is(t, k, r + 1);
    } else {
        assert(t[i] == s);
        assert(i > 0 ==> t[i - 1] == seps[i - 1]);
        assert(i < seps.len() ==> t[i + 1] == seps[i]);
        if lex_lt(k, s) {
            lemma_route_is(t, k, i);
        } else {
            lemma_route_is(t, k, i + 1);
        }
    }
}

/// Where keys go once a separator has been taken out.
pub proof fn lemma_route_remove(seps: Seq<Seq<u8>>, i: int, k: Seq<u8>)
    requires
        sorted(seps),
        0 <= i < seps.len(),
    ensures
        route(seps.remove(i), k) == (if route(seps, k) <= i {
            route(seps, k)
        } else {
            route(seps, k) - 1
        }),
{
    let t = seps.remove(i);
    lemma_sorted_remove(seps, i);
    lemma_route(seps, k);
    let r = route(seps, k);
    if r <= i {
        assert(r > 0 ==> t[r - 1] == seps[r - 1]);
        if r < t.len() {
            if r < i {
                assert(t[r] == seps[r]);
            } else {
                assert(t[r] == seps[r + 1]);
            }
        }
        lemma_route_is(t, k, r);
    } else {
        if r - 1 > 0 {
            if r - 2 < i {
                assert(t[r - 2] == seps[r - 2]);
            } else {
                assert(t[r - 2] == seps[r - 1]);
            }
        }
        if r - 1 < t.len() {
            assert(t[r - 1] == seps[r]);
        }
        lemma_route_is(t, k, r - 1);
    }
}

/// A branch as large as another with the same keys.
pub proof fn lemma_branch_len_keys(a: Seq<BranchCell>, b: Seq<BranchCell>)
    requires
        a.len() == b.len(),
        forall|i: int| 0 <= i < a.len() ==> (#[trigger] a[i]).0.len() == b[i].0.len(),
    ensures
        crate::node::branch_len(a) == crate::node::branch_len(b),
    decreases a.len(),
{
    if a.len() > 0 {
        assert forall|i: int| 0 <= i < a.skip(1).len() implies (#[trigger] a.skip(1)[i]).0.len()
            == b.skip(1)[i].0.len() by {
            assert(a[i + 1].0.len() == b[i + 1].0.len());
        }
        lemma_branch_len_keys(a.skip(1), b.skip(1));
        assert(a[0].0.len() == b[0].0.len());
    }
}

} // verus!
