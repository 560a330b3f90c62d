//! B-tree node serialization.
//!
//! Nodes are decoded into plain in-memory structures, modified there, and
//! re-encoded onto fresh pages. That trades some CPU against a lot of
//! slotted-page complexity.
//!
//! A leaf cell is the key length (2 bytes), a flag, the key, and then either
//! the value length (4 bytes) and the value, or the head page and length of
//! an overflow chain (8 bytes each). A branch starts with its first child;
//! a branch cell is the key length, a zero flag, the key and a child.

use vstd::prelude::*;

use crate::bytes::{
    get_u16, get_u32, get_u64, le_bytes, lemma_field16, lemma_field32, lemma_field64, put_all,
    put_le, put_zeros, sub_vec, u16_at, u32_at, u64_at, zeros,
};
use crate::error::{Error, Result};
use crate::order::{lemma_lex_trans, lex_lt, order_bytes, Order};
use crate::page::{PageId, PageType, PAGE_HEADER_LEN};
use crate::strings::join2;

verus! {

/// Where a leaf entry's value lives.
#[derive(Debug, Clone, PartialEq, Eq)]
pub enum ValueRef {
    Inline(Vec<u8>),
    /// Head page of an overflow chain plus the total value length.
    Overflow { head: PageId, len: u64 },
}

/// What a [`ValueRef`] stands for.
#[verifier::ext_equal]
pub enum VRef {
    Inline(Seq<u8>),
    Overflow { head: PageId, len: u64 },
}

impl View for ValueRef {
    type V = VRef;

    open spec fn view(&self) -> VRef {
        match self {
            ValueRef::Inline(v) => VRef::Inline(v@),
            ValueRef::Overflow { head, len } => VRef::Overflow { head: *head, len: *len },
        }
    }
}

pub const VFLAG_INLINE: u8 = 0;

pub const VFLAG_OVERFLOW: u8 = 1;

#[allow(inconsistent_fields)]
#[derive(Debug, Clone, PartialEq)]
pub enum Node {
    Leaf { entries: Vec<(Vec<u8>, ValueRef)> },
    Branch {
        /// Child for keys below entries[0].key.
        first_child: PageId,
        /// entries[i].0 is the lowest key reachable through entries[i].1.
        entries: Vec<(Vec<u8>, PageId)>,
    },
}

pub type LeafCell = (Seq<u8>, VRef);

pub type BranchCell = (Seq<u8>, PageId);

/// What a [`Node`] stands for.
#[verifier::ext_equal]
pub enum NodeV {
    Leaf(Seq<LeafCell>),
    Branch(PageId, Seq<BranchCell>),
}

pub open spec fn leaf_view(v: Seq<(Vec<u8>, ValueRef)>) -> Seq<LeafCell> {
    Seq::new(v.len(), |i: int| (v[i].0@, v[i].1@))
}

pub open spec fn branch_view(v: Seq<(Vec<u8>, PageId)>) -> Seq<BranchCell> {
    Seq::new(v.len(), |i: int| (v[i].0@, v[i].1))
}

impl View for Node {
    type V = NodeV;

    open spec fn view(&self) -> NodeV {
        match self {
            Node::Leaf { entries } => NodeV::Leaf(leaf_view(entries@)),
            Node::Branch { first_child, entries } => NodeV::Branch(
                *first_child,
                branch_view(entries@),
            ),
        }
    }
}

/// Strictly ascending in byte order.
pub open spec fn sorted(ks: Seq<Seq<u8>>) -> bool {
    forall|i: int, j: int| 0 <= i < j < ks.len() ==> lex_lt(#[trigger] ks[i], #[trigger] ks[j])
}

pub open spec fn leaf_keys(e: Seq<LeafCell>) -> Seq<Seq<u8>> {
    Seq::new(e.len(), |i: int| e[i].0)
}

pub open spec fn branch_keys(e: Seq<BranchCell>) -> Seq<Seq<u8>> {
    Seq::new(e.len(), |i: int| e[i].0)
}

// ---------------------------------------------------------------------
// sizes
// ---------------------------------------------------------------------

pub open spec fn leaf_cell_len(c: LeafCell) -> nat {
    3 + c.0.len() + (match c.1 {
        VRef::Inline(v) => 4 + v.len(),
        VRef::Overflow { head, len } => 16,
    })
}

pub open spec fn branch_cell_len(c: BranchCell) -> nat {
    11 + c.0.len()
}

pub open spec fn leaf_len(e: Seq<LeafCell>) -> nat
    decreases e.len(),
{
    if e.len() == 0 {
        0
    } else {
        leaf_cell_len(e[0]) + leaf_len(e.skip(1))
    }
}

pub open spec fn branch_len(e: Seq<BranchCell>) -> nat
    decreases e.len(),
{
    if e.len() == 0 {
        0
    } else {
        branch_cell_len(e[0]) + branch_len(e.skip(1))
    }
}

/// Bytes a node takes on its page.
pub open spec fn node_len(n: NodeV) -> nat {
    match n {
        NodeV::Leaf(e) => PAGE_HEADER_LEN as nat + leaf_len(e),
        NodeV::Branch(_, e) => PAGE_HEADER_LEN as nat + 8 + branch_len(e),
    }
}

pub proof fn lemma_leaf_len_add(a: Seq<LeafCell>, b: Seq<LeafCell>)
    ensures
        leaf_len(a + b) == leaf_len(a) + leaf_len(b),
    decreases a.len(),
{
    if a.len() == 0 {
        assert(a + b =~= b);
    } else {
        lemma_leaf_len_add(a.skip(1), b);
        assert((a + b).skip(1) =~= a.skip(1) + b);
    }
}

pub proof fn lemma_branch_len_add(a: Seq<BranchCell>, b: Seq<BranchCell>)
    ensures
        branch_len(a + b) == branch_len(a) + branch_len(b),
    decreases a.len(),
{
    if a.len() == 0 {
        assert(a + b =~= b);
    } else {
        lemma_branch_len_add(a.skip(1), b);
        assert((a + b).skip(1) =~= a.skip(1) + b);
    }
}

pub proof fn lemma_leaf_len_min(e: Seq<LeafCell>)
    ensures
        leaf_len(e) >= 7 * e.len(),
        forall|i: int| 0 <= i < e.len() ==> leaf_cell_len(#[trigger] e[i]) <= leaf_len(e),
    decreases e.len(),
{
    if e.len() > 0 {
        lemma_leaf_len_min(e.skip(1));
        assert forall|i: int| 0 <= i < e.len() implies leaf_cell_len(#[trigger] e[i]) <= leaf_len(
            e,
        ) by {
            if i > 0 {
                assert(e[i] == e.skip(1)[i - 1]);
            }
        }
    }
}

pub proof fn lemma_branch_len_min(e: Seq<BranchCell>)
    ensures
        branch_len(e) >= 11 * e.len(),
        forall|i: int| 0 <= i < e.len() ==> branch_cell_len(#[trigger] e[i]) <= branch_len(e),
    decreases e.len(),
{
    if e.len() > 0 {
        lemma_branch_len_min(e.skip(1));
        assert forall|i: int| 0 <= i < e.len() implies branch_cell_len(#[trigger] e[i])
            <= branch_len(e) by {
            if i > 0 {
                assert(e[i] == e.skip(1)[i - 1]);
            }
        }
    }
}

// ---------------------------------------------------------------------
// bytes
// ---------------------------------------------------------------------

pub open spec fn key_bytes(k: Seq<u8>, flag: u8) -> Seq<u8> {
    le_bytes(k.len(), 2) + seq![flag] + k
}

pub open spec fn leaf_cell_bytes(c: LeafCell) -> Seq<u8> {
    match c.1 {
        VRef::Inline(v) => key_bytes(c.0, VFLAG_INLINE) + (le_bytes(v.len(), 4) + v),
        VRef::Overflow { head, len } => key_bytes(c.0, VFLAG_OVERFLOW) + (le_bytes(head as nat, 8)
            + le_bytes(len as nat, 8)),
    }
}

pub open spec fn branch_cell_bytes(c: BranchCell) -> Seq<u8> {
    key_bytes(c.0, 0) + le_bytes(c.1 as nat, 8)
}

pub open spec fn leaf_body(e: Seq<LeafCell>) -> Seq<u8>
    decreases e.len(),
{
    if e.len() == 0 {
        Seq::empty()
    } else {
        leaf_cell_bytes(e[0]) + leaf_body(e.skip(1))
    }
}

pub open spec fn branch_body(e: Seq<BranchCell>) -> Seq<u8>
    decreases e.len(),
{
    if e.len() == 0 {
        Seq::empty()
    } else {
        branch_cell_bytes(e[0]) + branch_body(e.skip(1))
    }
}

pub open spec fn node_count(n: NodeV) -> nat {
    match n {
        NodeV::Leaf(e) => e.len(),
        NodeV::Branch(_, e) => e.len(),
    }
}

pub open spec fn node_code(n: NodeV) -> u8 {
    match n {
        NodeV::Leaf(_) => PageType::Leaf.spec_code(),
        NodeV::Branch(_, _) => PageType::Branch.spec_code(),
    }
}

pub open spec fn node_body(n: NodeV) -> Seq<u8> {
    match n {
        NodeV::Leaf(e) => leaf_body(e),
        NodeV::Branch(f, e) => le_bytes(f as nat, 8) + branch_body(e),
    }
}

/// The page of `ps` bytes that a node is encoded to.
pub open spec fn node_bytes(n: NodeV, ps: nat) -> Seq<u8> {
    let head = zeros(4) + seq![node_code(n), 0u8] + le_bytes(node_count(n), 2) + zeros(8);
    head + node_body(n) + zeros((ps - 16 - node_body(n).len()) as nat)
}

// ---------------------------------------------------------------------
// decoding
// ---------------------------------------------------------------------

/// The key and flag at the front of `s`, and the bytes they take.
pub open spec fn key_of(s: Seq<u8>) -> Option<(Seq<u8>, u8, nat)> {
    if s.len() < 3 || s.len() - 3 < u16_at(s, 0) {
        None
    } else {
        Some((s.subrange(3, 3 + u16_at(s, 0)), s[2], (3 + u16_at(s, 0)) as nat))
    }
}

/// The leaf cell at the front of `s`, and the bytes it takes.
pub open spec fn leaf_cell_of(s: Seq<u8>) -> Option<(LeafCell, nat)> {
    match key_of(s) {
        None => None,
        Some((k, flag, n)) => {
            let r = s.skip(n as int);
            if flag == VFLAG_INLINE {
                if r.len() < 4 || r.len() - 4 < u32_at(r, 0) {
                    None
                } else {
                    let len = u32_at(r, 0);
                    Some(((k, VRef::Inline(r.subrange(4, 4 + len))), n + 4 + len as nat))
                }
            } else if flag == VFLAG_OVERFLOW {
                if r.len() < 16 {
                    None
                } else {
                    Some(((k, VRef::Overflow { head: u64_at(r, 0), len: u64_at(r, 8) }), n + 16))
                }
            } else {
                None
            }
        },
    }
}

/// The branch cell at the front of `s`, and the bytes it takes.
pub open spec fn branch_cell_of(s: Seq<u8>) -> Option<(BranchCell, nat)> {
    match key_of(s) {
        None => None,
        Some((k, flag, n)) => {
            let r = s.skip(n as int);
            if flag != 0 || r.len() < 8 {
                None
            } else {
                Some(((k, u64_at(r, 0)), n + 8))
            }
        },
    }
}

pub open spec fn leaf_cells_of(s: Seq<u8>, count: nat) -> Option<Seq<LeafCell>>
    decreases count,
{
    if count == 0 {
        Some(Seq::empty())
    } else {
        match leaf_cell_of(s) {
            None => None,
            Some((c, n)) => match leaf_cells_of(s.skip(n as int), (count - 1) as nat) {
                None => None,
                Some(rest) => Some(seq![c] + rest),
            },
        }
    }
}

pub open spec fn branch_cells_of(s: Seq<u8>, count: nat) -> Option<Seq<BranchCell>>
    decreases count,
{
    if count == 0 {
        Some(Seq::empty())
    } else {
        match branch_cell_of(s) {
            None => None,
            Some((c, n)) => match branch_cells_of(s.skip(n as int), (count - 1) as nat) {
                None => None,
                Some(rest) => Some(seq![c] + rest),
            },
        }
    }
}

/// The node that a type byte, a count and a page body spell.
pub open spec fn node_parse(code: u8, count: nat, body: Seq<u8>) -> Option<NodeV> {
    if code == PageType::Leaf.spec_code() {
        match leaf_cells_of(body, count) {
            Some(e) => if sorted(leaf_keys(e)) {
                Some(NodeV::Leaf(e))
            } else {
                None
            },
            None => None,
        }
    } else if code == PageType::Branch.spec_code() {
        if body.len() < 8 {
            None
        } else {
            match branch_cells_of(body.skip(8), count) {
                Some(e) => if sorted(branch_keys(e)) {
                    Some(NodeV::Branch(u64_at(body, 0), e))
                } else {
                    None
                },
                None => None,
            }
        }
    } else {
        None
    }
}

/// The node that a page holds, if it holds one.
pub open spec fn node_of(b: Seq<u8>) -> Option<NodeV> {
    node_parse(b[4], u16_at(b, 6) as nat, b.subrange(16, b.len() as int))
}

pub open spec fn node_sorted(n: NodeV) -> bool {
    match n {
        NodeV::Leaf(e) => sorted(leaf_keys(e)),
        NodeV::Branch(_, e) => sorted(branch_keys(e)),
    }
}

proof fn lemma_key_roundtrip(k: Seq<u8>, flag: u8, t: Seq<u8>)
    requires
        k.len() < 0x1_0000,
    ensures
        key_bytes(k, flag).len() == 3 + k.len(),
        key_of(key_bytes(k, flag) + t) == Some((k, flag, (3 + k.len()) as nat)),
{
    let s = key_bytes(k, flag) + t;
    lemma_field16(k.len() as u16);
    assert(s.subrange(0, 2) =~= le_bytes(k.len(), 2));
    assert(s[2] == flag);
    assert(s.subrange(3, 3 + k.len() as int) =~= k);
}

proof fn lemma_leaf_cell_roundtrip(c: LeafCell, t: Seq<u8>)
    requires
        leaf_cell_len(c) <= 0x1_0000,
    ensures
        leaf_cell_bytes(c).len() == leaf_cell_len(c),
        leaf_cell_of(leaf_cell_bytes(c) + t) == Some((c, leaf_cell_len(c))),
{
    let s = leaf_cell_bytes(c) + t;
    match c.1 {
        VRef::Inline(v) => {
            let tail = le_bytes(v.len(), 4) + v;
            lemma_field32(v.len() as u32);
            lemma_key_roundtrip(c.0, VFLAG_INLINE, tail + t);
            assert(s =~= key_bytes(c.0, VFLAG_INLINE) + (tail + t));
            let r = s.skip(3 + c.0.len() as int);
            assert(r =~= tail + t);
            assert(r.subrange(0, 4) =~= le_bytes(v.len(), 4));
            assert(r.subrange(4, 4 + v.len() as int) =~= v);
        },
        VRef::Overflow { head, len } => {
            let tail = le_bytes(head as nat, 8) + le_bytes(len as nat, 8);
            lemma_field64(head);
            lemma_field64(len);
            lemma_key_roundtrip(c.0, VFLAG_OVERFLOW, tail + t);
            assert(s =~= key_bytes(c.0, VFLAG_OVERFLOW) + (tail + t));
            let r = s.skip(3 + c.0.len() as int);
            assert(r =~= tail + t);
            assert(r.subrange(0, 8) =~= le_bytes(head as nat, 8));
            assert(r.subrange(8, 16) =~= le_bytes(len as nat, 8));
        },
    }
}

proof fn lemma_branch_cell_roundtrip(c: BranchCell, t: Seq<u8>)
    requires
        branch_cell_len(c) <= 0x1_0000,
    ensures
        branch_cell_bytes(c).len() == branch_cell_len(c),
        branch_cell_of(branch_cell_bytes(c) + t) == Some((c, branch_cell_len(c))),
{
    let s = branch_cell_bytes(c) + t;
    let tail = le_bytes(c.1 as nat, 8);
    lemma_field64(c.1);
    lemma_key_roundtrip(c.0, 0, tail + t);
    assert(s =~= key_bytes(c.0, 0) + (tail + t));
    let r = s.skip(3 + c.0.len() as int);
    assert(r =~= tail + t);
    assert(r.subrange(0, 8) =~= tail);
}

proof fn lemma_assoc(x: Seq<u8>, y: Seq<u8>, z: Seq<u8>)
    ensures
        (x + y) + z == x + (y + z),
        (x + y).len() == x.len() + y.len(),
{
    assert((x + y) + z =~= x + (y + z));
}

proof fn lemma_leaf_cells_step(x: Seq<u8>, rest: Seq<u8>, c: LeafCell, es: Seq<LeafCell>)
    requires
        leaf_cell_of(x + rest) == Some((c, x.len())),
        leaf_cells_of(rest, es.len()) == Some(es),
    ensures
        leaf_cells_of(x + rest, es.len() + 1) == Some(seq![c] + es),
{
    assert((x + rest).skip(x.len() as int) =~= rest);
}

proof fn lemma_branch_cells_step(x: Seq<u8>, rest: Seq<u8>, c: BranchCell, es: Seq<BranchCell>)
    requires
        branch_cell_of(x + rest) == Some((c, x.len())),
        branch_cells_of(rest, es.len()) == Some(es),
    ensures
        branch_cells_of(x + rest, es.len() + 1) == Some(seq![c] + es),
{
    assert((x + rest).skip(x.len() as int) =~= rest);
}

proof fn lemma_leaf_body_roundtrip(e: Seq<LeafCell>, t: Seq<u8>)
    requires
        leaf_len(e) <= 0x1_0000,
    ensures
        leaf_body(e).len() == leaf_len(e),
        leaf_cells_of(leaf_body(e) + t, e.len()) == Some(e),
    decreases e.len(),
{
    if e.len() == 0 {
        assert(e =~= Seq::empty());
    } else {
        lemma_leaf_body_roundtrip(e.skip(1), t);
        let rest = leaf_body(e.skip(1)) + t;
        lemma_leaf_cell_roundtrip(e[0], rest);
        lemma_assoc(leaf_cell_bytes(e[0]), leaf_body(e.skip(1)), t);
        lemma_leaf_cells_step(leaf_cell_bytes(e[0]), rest, e[0], e.skip(1));
        assert(seq![e[0]] + e.skip(1) =~= e);
    }
}

proof fn lemma_branch_body_roundtrip(e: Seq<BranchCell>, t: Seq<u8>)
    requires
        branch_len(e) <= 0x1_0000,
    ensures
        branch_body(e).len() == branch_len(e),
        branch_cells_of(branch_body(e) + t, e.len()) == Some(e),
    decreases e.len(),
{
    if e.len() == 0 {
        assert(e =~= Seq::empty());
    } else {
        lemma_branch_body_roundtrip(e.skip(1), t);
        let rest = branch_body(e.skip(1)) + t;
        lemma_branch_cell_roundtrip(e[0], rest);
        lemma_assoc(branch_cell_bytes(e[0]), branch_body(e.skip(1)), t);
        lemma_branch_cells_step(branch_cell_bytes(e[0]), rest, e[0], e.skip(1));
        assert(seq![e[0]] + e.skip(1) =~= e);
    }
}

proof fn lemma_node_body_len(n: NodeV, ps: nat)
    requires
        node_len(n) <= ps <= 0x1_0000,
    ensures
        16 + node_body(n).len() == node_len(n),
        node_count(n) < 0x1_0000,
{
    match n {
        NodeV::Leaf(e) => {
            lemma_leaf_body_roundtrip(e, Seq::empty());
            lemma_leaf_len_min(e);
        },
        NodeV::Branch(f, e) => {
            lemma_branch_body_roundtrip(e, Seq::empty());
            lemma_branch_len_min(e);
            lemma_field64(f);
        },
    }
}

pub proof fn lemma_node_bytes_len(n: NodeV, ps: nat)
    requires
        node_len(n) <= ps <= 0x1_0000,
    ensures
        node_bytes(n, ps).len() == ps,
{
    lemma_node_body_len(n, ps);
    lemma_field16(node_count(n) as u16);
}

/// Decoding an encoded node gives the node back, whatever checksum and lsn
/// its page has been given.
pub proof fn law_node_decode_inverts_encode(n: NodeV, ps: nat, b: Seq<u8>)
    requires
        node_len(n) <= ps <= 0x1_0000,
        node_sorted(n),
        b.len() == ps,
        b.subrange(4, 8) == node_bytes(n, ps).subrange(4, 8),
        b.subrange(16, ps as int) == node_bytes(n, ps).subrange(16, ps as int),
    ensures
        node_bytes(n, ps).len() == ps,
        node_of(b) == Some(n),
{
    lemma_node_body_len(n, ps);
    lemma_field16(node_count(n) as u16);
    let x = node_bytes(n, ps);
    let pad = zeros((ps - node_len(n)) as nat);
    assert(x.subrange(16, ps as int) =~= node_body(n) + pad);
    assert(x[4] == node_code(n));
    assert(x.subrange(6, 8) =~= le_bytes(node_count(n), 2));
    assert(b.subrange(4, 8)[0] == b[4]);
    assert(x.subrange(4, 8)[0] == x[4]);
    assert(b.subrange(4, 8).subrange(2, 4) =~= b.subrange(6, 8));
    assert(x.subrange(4, 8).subrange(2, 4) =~= x.subrange(6, 8));
    let body = b.subrange(16, b.len() as int);
    match n {
        NodeV::Leaf(e) => {
            lemma_leaf_body_roundtrip(e, pad);
        },
        NodeV::Branch(f, e) => {
            lemma_branch_body_roundtrip(e, pad);
            lemma_field64(f);
            assert(body.subrange(0, 8) =~= le_bytes(f as nat, 8));
            assert(body.skip(8) =~= branch_body(e) + pad);
        },
    }
}

/// A page that agrees with another on type, count and body holds the same
/// node.
pub proof fn lemma_node_of_frame(a: Seq<u8>, b: Seq<u8>)
    requires
        a.len() == b.len() >= 16,
        a.subrange(4, 8) == b.subrange(4, 8),
        a.subrange(16, a.len() as int) == b.subrange(16, b.len() as int),
    ensures
        node_of(a) == node_of(b),
{
    assert(a.subrange(4, 8)[0] == a[4]);
    assert(b.subrange(4, 8)[0] == b[4]);
    assert(a.subrange(4, 8).subrange(2, 4) =~= a.subrange(6, 8));
    assert(b.subrange(4, 8).subrange(2, 4) =~= b.subrange(6, 8));
}

// ---------------------------------------------------------------------
// code
// ---------------------------------------------------------------------

fn bad(id: PageId, what: &str) -> (e: Error)
    ensures
        e is Corrupted,
        e->page == Some(id),
{
    Error::corrupted(Some(id), join2("node decode: ", what).as_str())
}

/// The key and flag at `at`, and where they end.
fn read_key(buf: &[u8], at: usize) -> (r: Option<(Vec<u8>, u8, usize)>)
    requires
        at <= buf@.len(),
    ensures
        match (r, key_of(buf@.skip(at as int))) {
            (Some((k, f, end)), Some((sk, sf, n))) => k@ == sk && f == sf && end == at + n && end
                <= buf@.len(),
            (None, None) => true,
            _ => false,
        },
{
    let len: usize = buf.len();
    let ghost s = buf@.skip(at as int);
    if len - at < 3 {
        return None;
    }
    let klen: usize = get_u16(buf, at) as usize;
    proof {
        assert(s.subrange(0, 2) =~= buf@.subrange(at as int, at + 2));
    }
    if len - at - 3 < klen {
        return None;
    }
    let flag = buf[at + 2];
    let key = sub_vec(buf, at + 3, at + 3 + klen);
    proof {
        assert(s.subrange(3, 3 + klen) =~= buf@.subrange(at + 3, at + 3 + klen));
    }
    Some((key, flag, at + 3 + klen))
}

fn read_leaf_cell(buf: &[u8], at: usize) -> (r: Option<((Vec<u8>, ValueRef), usize)>)
    requires
        at <= buf@.len(),
    ensures
        match (r, leaf_cell_of(buf@.skip(at as int))) {
            (Some(((k, v), end)), Some((c, n))) => k@ == c.0 && v@ == c.1 && end == at + n && end
                <= buf@.len(),
            (None, None) => true,
            _ => false,
        },
{
    let len: usize = buf.len();
    match read_key(buf, at) {
        None => None,
        Some((key, flag, end)) => {
            let ghost r = buf@.skip(end as int);
            proof {
                assert(buf@.skip(at as int).skip(end - at) =~= r);
            }
            if flag == VFLAG_INLINE {
                if len - end < 4 {
                    return None;
                }
                let vlen: u32 = get_u32(buf, end);
                proof {
                    assert(r.subrange(0, 4) =~= buf@.subrange(end as int, end + 4));
                }
                if ((len - end - 4) as u64) < vlen as u64 {
                    return None;
                }
                let n: usize = vlen as usize;
                let val = sub_vec(buf, end + 4, end + 4 + n);
                proof {
                    assert(r.subrange(4, 4 + n) =~= buf@.subrange(end + 4, end + 4 + n));
                }
                Some(((key, ValueRef::Inline(val)), end + 4 + n))
            } else if flag == VFLAG_OVERFLOW {
                if len - end < 16 {
                    return None;
                }
                let head: u64 = get_u64(buf, end);
                let vlen: u64 = get_u64(buf, end + 8);
                proof {
                    assert(r.subrange(0, 8) =~= buf@.subrange(end as int, end + 8));
                    assert(r.subrange(8, 16) =~= buf@.subrange(end + 8, end + 16));
                }
                Some(((key, ValueRef::Overflow { head, len: vlen }), end + 16))
            } else {
                None
            }
        },
    }
}

fn read_branch_cell(buf: &[u8], at: usize) -> (r: Option<((Vec<u8>, PageId), usize)>)
    requires
        at <= buf@.len(),
    ensures
        match (r, branch_cell_of(buf@.skip(at as int))) {
            (Some(((k, c), end)), Some((sc, n))) => k@ == sc.0 && c == sc.1 && end == at + n && end
                <= buf@.len(),
            (None, None) => true,
            _ => false,
        },
{
    let len: usize = buf.len();
    match read_key(buf, at) {
        None => None,
        Some((key, flag, end)) => {
            let ghost r = buf@.skip(end as int);
            proof {
                assert(buf@.skip(at as int).skip(end - at) =~= r);
            }
            if flag != 0 || len - end < 8 {
                return None;
            }
            let child: u64 = get_u64(buf, end);
            proof {
                assert(r.subrange(0, 8) =~= buf@.subrange(end as int, end + 8));
            }
            Some(((key, child), end + 8))
        },
    }
}

/// Neighbours in order make the whole list sorted.
pub proof fn lemma_adjacent_sorted(ks: Seq<Seq<u8>>)
    requires
        forall|i: int| 0 <= i < ks.len() - 1 ==> lex_lt(ks[i], #[trigger] ks[i + 1]),
    ensures
        sorted(ks),
    decreases ks.len(),
{
    if ks.len() > 1 {
        let init = ks.drop_last();
        assert forall|i: int| 0 <= i < init.len() - 1 implies lex_lt(
            init[i],
            #[trigger] init[i + 1],
        ) by {
            assert(ks[i + 1] == init[i + 1]);
        }
        lemma_adjacent_sorted(init);
        let n = ks.len() - 1;
        assert forall|i: int, j: int| 0 <= i < j < ks.len() implies lex_lt(
            #[trigger] ks[i],
            #[trigger] ks[j],
        ) by {
            if j < n {
                assert(init[i] == ks[i] && init[j] == ks[j]);
            } else {
                assert(ks[(n - 1) + 1] == ks[n]);
                if i < n - 1 {
                    assert(init[i] == ks[i] && init[n - 1] == ks[n - 1]);
                    lemma_lex_trans(ks[i], ks[n - 1], ks[n]);
                }
            }
        }
    }
}

fn leaf_sorted(entries: &Vec<(Vec<u8>, ValueRef)>) -> (r: bool)
    ensures
        r == sorted(leaf_keys(leaf_view(entries@))),
{
    let ghost ks = leaf_keys(leaf_view(entries@));
    let n: usize = entries.len();
    let mut i: usize = 1;
    while i < n
        invariant
            1 <= i,
            n == entries@.len(),
            i <= n || n == 0,
            ks == leaf_keys(leaf_view(entries@)),
            forall|j: int| 0 <= j < i - 1 && j < n - 1 ==> lex_lt(ks[j], #[trigger] ks[j + 1]),
        decreases n - i,
    {
        match order_bytes(entries[i - 1].0.as_slice(), entries[i].0.as_slice()) {
            Order::Less => {},
            _ => {
                proof {
                    crate::order::lemma_lex_irrefl(ks[i - 1]);
                    assert(!lex_lt(ks[i - 1], ks[i as int]));
                }
                return false;
            },
        }
        i = i + 1;
    }
    proof {
        lemma_adjacent_sorted(ks);
    }
    true
}

fn branch_sorted(entries: &Vec<(Vec<u8>, PageId)>) -> (r: bool)
    ensures
        r == sorted(branch_keys(branch_view(entries@))),
{
    let ghost ks = branch_keys(branch_view(entries@));
    let n: usize = entries.len();
    let mut i: usize = 1;
    while i < n
        invariant
            1 <= i,
            n == entries@.len(),
            i <= n || n == 0,
            ks == branch_keys(branch_view(entries@)),
            forall|j: int| 0 <= j < i - 1 && j < n - 1 ==> lex_lt(ks[j], #[trigger] ks[j + 1]),
        decreases n - i,
    {
        match order_bytes(entries[i - 1].0.as_slice(), entries[i].0.as_slice()) {
            Order::Less => {},
            _ => {
                proof {
                    crate::order::lemma_lex_irrefl(ks[i - 1]);
                    assert(!lex_lt(ks[i - 1], ks[i as int]));
                }
                return false;
            },
        }
        i = i + 1;
    }
    proof {
        lemma_adjacent_sorted(ks);
    }
    true
}

impl Node {
    pub fn decode(buf: &[u8], id: PageId) -> (r: Result<Node>)
        requires
            buf@.len() >= PAGE_HEADER_LEN,
        ensures
            match r {
                Ok(n) => node_of(buf@) == Some(n@),
                Err(e) => node_of(buf@) is None && e is Corrupted && (buf@[4] <= 6 ==> e->page == Some(
                    id,
                )),
            },
    {
        let len: usize = buf.len();
        let count: usize = get_u16(buf, 6) as usize;
        let ghost body = buf@.subrange(16, buf@.len() as int);
        match crate::page::page_type(buf) {
            Err(e) => Err(e),
            Ok(PageType::Leaf) => {
                let mut entries: Vec<(Vec<u8>, ValueRef)> = Vec::new();
                let mut at: usize = PAGE_HEADER_LEN;
                let mut i: usize = 0;
                proof {
                    assert(body.skip(0) =~= body);
                    assert(body =~= buf@.skip(16));
                    assert(leaf_view(entries@) =~= Seq::empty());
                    if let Some(rest) = leaf_cells_of(body, count as nat) {
                        assert(Seq::<LeafCell>::empty() + rest =~= rest);
                    }
                }
                while i < count
                    invariant
                        i <= count,
                        16 <= at <= buf@.len(),
                        body == buf@.subrange(16, buf@.len() as int),
                        count == u16_at(buf@, 6),
                        buf@[4] == PageType::Leaf.spec_code(),
                        match leaf_cells_of(buf@.skip(at as int), (count - i) as nat) {
                            Some(rest) => leaf_cells_of(body, count as nat) == Some(
                                leaf_view(entries@) + rest,
                            ),
                            None => leaf_cells_of(body, count as nat) is None,
                        },
                    decreases count - i,
                {
                    match read_leaf_cell(buf, at) {
                        None => {
                            return Err(bad(id, "truncated cell"));
                        },
                        Some((cell, end)) => {
                            let ghost before = leaf_view(entries@);
                            let ghost c = (cell.0@, cell.1@);
                            proof {
                                assert(buf@.skip(at as int).skip(end - at) =~= buf@.skip(
                                    end as int,
                                ));
                            }
                            entries.push(cell);
                            proof {
                                assert(leaf_view(entries@) =~= before.push(c));
                                if let Some(rest) = leaf_cells_of(
                                    buf@.skip(end as int),
                                    (count - i - 1) as nat,
                                ) {
                                    assert(before + (seq![c] + rest) =~= before.push(c) + rest);
                                }
                            }
                            at = end;
                        },
                    }
                    i = i + 1;
                }
                proof {
                    assert(leaf_view(entries@) + Seq::<LeafCell>::empty() =~= leaf_view(entries@));
                }
                if !leaf_sorted(&entries) {
                    return Err(bad(id, "leaf keys not strictly sorted"));
                }
                Ok(Node::Leaf { entries })
            },
            Ok(PageType::Branch) => {
                if len - PAGE_HEADER_LEN < 8 {
                    return Err(bad(id, "truncated"));
                }
                let first_child: u64 = get_u64(buf, PAGE_HEADER_LEN);
                proof {
                    assert(body.subrange(0, 8) =~= buf@.subrange(16, 24));
                    assert(body.skip(8) =~= buf@.skip(24));
                }
                let mut entries: Vec<(Vec<u8>, PageId)> = Vec::new();
                let mut at: usize = PAGE_HEADER_LEN + 8;
                let mut i: usize = 0;
                proof {
                    assert(branch_view(entries@) =~= Seq::empty());
                    if let Some(rest) = branch_cells_of(body.skip(8), count as nat) {
                        assert(Seq::<BranchCell>::empty() + rest =~= rest);
                    }
                }
                while i < count
                    invariant
                        i <= count,
                        16 <= at <= buf@.len(),
                        body == buf@.subrange(16, buf@.len() as int),
                        body.len() >= 8,
                        count == u16_at(buf@, 6),
                        buf@[4] == PageType::Branch.spec_code(),
                        match branch_cells_of(buf@.skip(at as int), (count - i) as nat) {
                            Some(rest) => branch_cells_of(body.skip(8), count as nat) == Some(
                                branch_view(entries@) + rest,
                            ),
                            None => branch_cells_of(body.skip(8), count as nat) is None,
                        },
                    decreases count - i,
                {
                    match read_branch_cell(buf, at) {
                        None => {
                            return Err(bad(id, "truncated cell"));
                        },
                        Some((cell, end)) => {
                            let ghost before = branch_view(entries@);
                            let ghost c = (cell.0@, cell.1);
                            proof {
                                assert(buf@.skip(at as int).skip(end - at) =~= buf@.skip(
                                    end as int,
                                ));
                            }
                            entries.push(cell);
                            proof {
                                assert(branch_view(entries@) =~= before.push(c));
                                if let Some(rest) = branch_cells_of(
                                    buf@.skip(end as int),
                                    (count - i - 1) as nat,
                                ) {
                                    assert(before + (seq![c] + rest) =~= before.push(c) + rest);
                                }
                            }
                            at = end;
                        },
                    }
                    i = i + 1;
                }
                proof {
                    assert(branch_view(entries@) + Seq::<BranchCell>::empty() =~= branch_view(
                        entries@,
                    ));
                }
                if !branch_sorted(&entries) {
                    return Err(bad(id, "branch keys not strictly sorted"));
                }
                Ok(Node::Branch { first_child, entries })
            },
            Ok(_) => Err(bad(id, "expected a btree node")),
        }
    }

    /// Encode into a fresh page buffer of `page_size` bytes. The caller has
    /// already checked [`Node::encoded_size`] against the page.
    pub fn encode(&self, page_size: u32) -> (r: Vec<u8>)
        requires
            page_size <= 65536,
            node_len(self@) <= page_size,
        ensures
            r@ == node_bytes(self@, page_size as nat),
            r@.len() == page_size,
    {
        let ghost n = self@;
        proof {
            lemma_node_body_len(n, page_size as nat);
            lemma_field16(node_count(n) as u16);
        }
        let mut buf: Vec<u8> = Vec::new();
        put_zeros(&mut buf, 4);
        buf.push(
            match self {
                Node::Leaf { entries } => PageType::Leaf.code(),
                Node::Branch { first_child, entries } => PageType::Branch.code(),
            },
        );
        buf.push(0);
        let count: usize = match self {
            Node::Leaf { entries } => entries.len(),
            Node::Branch { first_child, entries } => entries.len(),
        };
        put_le(&mut buf, count as u64, 2);
        put_zeros(&mut buf, 8);
        let ghost head = zeros(4) + seq![node_code(n), 0u8] + le_bytes(node_count(n), 2) + zeros(8);
        proof {
            assert(buf@ =~= head);
        }
        match self {
            Node::Leaf { entries } => {
                let ghost all = leaf_view(entries@);
                proof {
                    assert(all.skip(0) =~= all);
                    lemma_leaf_len_min(all);
                }
                let mut i: usize = 0;
                while i < entries.len()
                    invariant
                        i <= entries@.len(),
                        all == leaf_view(entries@),
                        leaf_len(all) <= 65536,
                        forall|j: int|
                            0 <= j < all.len() ==> leaf_cell_len(#[trigger] all[j]) <= leaf_len(
                                all,
                            ),
                        buf@ + leaf_body(all.skip(i as int)) == head + leaf_body(all),
                    decreases entries@.len() - i,
                {
                    let ghost before = buf@;
                    proof {
                        assert(all.skip(i as int).skip(1) =~= all.skip(i + 1));
                        assert(leaf_cell_len(all[i as int]) <= 65536);
                    }
                    write_leaf_cell(&mut buf, &entries[i].0, &entries[i].1);
                    i = i + 1;
                    proof {
                        let rest = leaf_body(all.skip(i as int));
                        assert(before + leaf_body(all.skip(i - 1)) =~= buf@ + rest);
                    }
                }
                proof {
                    assert(all.skip(i as int) =~= Seq::empty());
                    assert(buf@ =~= head + node_body(n));
                }
            },
            Node::Branch { first_child, entries } => {
                let ghost all = branch_view(entries@);
                put_le(&mut buf, *first_child, 8);
                let ghost start = buf@;
                proof {
                    assert(all.skip(0) =~= all);
                    lemma_branch_len_min(all);
                }
                let mut i: usize = 0;
                while i < entries.len()
                    invariant
                        i <= entries@.len(),
                        all == branch_view(entries@),
                        branch_len(all) <= 65536,
                        forall|j: int|
                            0 <= j < all.len() ==> branch_cell_len(#[trigger] all[j])
                                <= branch_len(all),
                        buf@ + branch_body(all.skip(i as int)) == start + branch_body(all),
                    decreases entries@.len() - i,
                {
                    let ghost before = buf@;
                    proof {
                        assert(all.skip(i as int).skip(1) =~= all.skip(i + 1));
                        assert(branch_cell_len(all[i as int]) <= 65536);
                    }
                    write_key(&mut buf, &entries[i].0, 0);
                    put_le(&mut buf, entries[i].1, 8);
                    i = i + 1;
                    proof {
                        let rest = branch_body(all.skip(i as int));
                        assert(before + branch_body(all.skip(i - 1)) =~= buf@ + rest);
                    }
                }
                proof {
                    assert(all.skip(i as int) =~= Seq::empty());
                    assert(buf@ =~= head + node_body(n));
                }
            },
        }
        let used: usize = buf.len();
        put_zeros(&mut buf, page_size as usize - used);
        buf
    }

    /// Exact number of bytes [`Node::encode`] will use.
    pub fn encoded_size(&self) -> (r: usize)
        requires
            node_len(self@) <= usize::MAX,
        ensures
            r == node_len(self@),
    {
        let mut total: usize = PAGE_HEADER_LEN;
        match self {
            Node::Leaf { entries } => {
                let ghost all = leaf_view(entries@);
                proof {
                    assert(all.skip(0) =~= all);
                }
                let mut i: usize = 0;
                while i < entries.len()
                    invariant
                        i <= entries@.len(),
                        all == leaf_view(entries@),
                        total + leaf_len(all.skip(i as int)) == 16 + leaf_len(all),
                        16 + leaf_len(all) <= usize::MAX,
                    decreases entries@.len() - i,
                {
                    proof {
                        assert(all.skip(i as int).skip(1) =~= all.skip(i + 1));
                    }
                    total = total + leaf_cell_size(entries[i].0.as_slice(), &entries[i].1);
                    i = i + 1;
                }
                proof {
                    assert(all.skip(i as int) =~= Seq::empty());
                }
            },
            Node::Branch { first_child, entries } => {
                let ghost all = branch_view(entries@);
                proof {
                    assert(all.skip(0) =~= all);
                }
                total = total + 8;
                let mut i: usize = 0;
                while i < entries.len()
                    invariant
                        i <= entries@.len(),
                        all == branch_view(entries@),
                        total + branch_len(all.skip(i as int)) == 24 + branch_len(all),
                        24 + branch_len(all) <= usize::MAX,
                    decreases entries@.len() - i,
                {
                    proof {
                        assert(all.skip(i as int).skip(1) =~= all.skip(i + 1));
                    }
                    total = total + branch_cell_size(entries[i].0.as_slice());
                    i = i + 1;
                }
                proof {
                    assert(all.skip(i as int) =~= Seq::empty());
                }
            },
        }
        total
    }
}

/// Bytes a leaf cell takes.
pub fn leaf_cell_size(key: &[u8], value: &ValueRef) -> (r: usize)
    requires
        leaf_cell_len((key@, value@)) <= usize::MAX,
    ensures
        r == leaf_cell_len((key@, value@)),
{
    match value {
        ValueRef::Inline(v) => 3 + key.len() + (4 + v.len()),
        ValueRef::Overflow { head, len } => 3 + key.len() + 16,
    }
}

/// Bytes a branch cell takes.
pub fn branch_cell_size(key: &[u8]) -> (r: usize)
    requires
        11 + key@.len() <= usize::MAX,
    ensures
        r == 11 + key@.len(),
{
    3 + key.len() + 8
}

fn write_key(buf: &mut Vec<u8>, key: &Vec<u8>, flag: u8)
    requires
        key@.len() < 0x1_0000,
    ensures
        final(buf)@ == old(buf)@ + key_bytes(key@, flag),
{
    let ghost start = buf@;
    put_le(buf, key.len() as u64, 2);
    buf.push(flag);
    put_all(buf, key.as_slice());
    proof {
        assert(buf@ =~= start + key_bytes(key@, flag));
    }
}

fn write_leaf_cell(buf: &mut Vec<u8>, key: &Vec<u8>, value: &ValueRef)
    requires
        leaf_cell_len((key@, value@)) <= 0x1_0000,
    ensures
        final(buf)@ == old(buf)@ + leaf_cell_bytes((key@, value@)),
{
    let ghost start = buf@;
    match value {
        ValueRef::Inline(v) => {
            write_key(buf, key, VFLAG_INLINE);
            put_le(buf, v.len() as u64, 4);
            put_all(buf, v.as_slice());
        },
        ValueRef::Overflow { head, len } => {
            write_key(buf, key, VFLAG_OVERFLOW);
            put_le(buf, *head, 8);
            put_le(buf, *len, 8);
        },
    }
    proof {
        assert(buf@ =~= start + leaf_cell_bytes((key@, value@)));
    }
}

proof fn lemma_leaf_cells_len(s: Seq<u8>, count: nat)
    ensures
        leaf_cells_of(s, count) matches Some(e) ==> leaf_len(e) <= s.len() && e.len() == count,
    decreases count,
{
    if count > 0 {
        if let Some((c, n)) = leaf_cell_of(s) {
            lemma_leaf_cells_len(s.skip(n as int), (count - 1) as nat);
            if let Some(rest) = leaf_cells_of(s.skip(n as int), (count - 1) as nat) {
                let e = seq![c] + rest;
                assert(e.skip(1) =~= rest);
                assert(e[0] == c);
            }
        }
    }
}

proof fn lemma_branch_cells_len(s: Seq<u8>, count: nat)
    ensures
        branch_cells_of(s, count) matches Some(e) ==> branch_len(e) <= s.len() && e.len() == count,
    decreases count,
{
    if count > 0 {
        if let Some((c, n)) = branch_cell_of(s) {
            lemma_branch_cells_len(s.skip(n as int), (count - 1) as nat);
            if let Some(rest) = branch_cells_of(s.skip(n as int), (count - 1) as nat) {
                let e = seq![c] + rest;
                assert(e.skip(1) =~= rest);
                assert(e[0] == c);
            }
        }
    }
}

/// A node that came off a page fits that page.
pub proof fn lemma_node_fits(b: Seq<u8>)
    requires
        b.len() >= 16,
    ensures
        node_of(b) matches Some(n) ==> node_len(n) <= b.len() && node_sorted(n),
{
    let body = b.subrange(16, b.len() as int);
    lemma_leaf_cells_len(body, u16_at(b, 6) as nat);
    if body.len() >= 8 {
        lemma_branch_cells_len(body.skip(8), u16_at(b, 6) as nat);
    }
}

} // verus!
