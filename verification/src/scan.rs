//! Walking a tree in key order.

use vstd::prelude::*;

use crate::btree::{
    branch_position, child_at, endless, leaf_position, lemma_branch_node, lemma_tree_nodes, read_value,
};
use crate::bytes::copy_vec;
use crate::error::Result;
use crate::node::{branch_view, leaf_view, sorted, Node, ValueRef};
use crate::order::{lemma_lex_irrefl, lemma_lex_trans, lex_le, lex_lt, order_bytes, Order};
use crate::page::{PageId, NIL_PAGE};
use crate::pager::ReadPages;
use crate::tree::{
    entry_cells, entry_items, entry_keys, in_range, items_of, kid_cells, kid_hi, kid_lo,
    lemma_entries_find, lemma_lex_facts2, lemma_route, lemma_route_is, map_of, nodes_of, route,
    tree_at, Entry, Pages, Tree,
};

verus! {

/// A key with its value.
pub type Item = (Seq<u8>, Seq<u8>);

pub open spec fn item_keys(s: Seq<Item>) -> Seq<Seq<u8>> {
    Seq::new(s.len(), |i: int| s[i].0)
}

/// Whether a list gives exactly what a map has between `start` and `end`,
/// in key order.
pub open spec fn lists(
    m: Map<Seq<u8>, Seq<u8>>,
    start: Option<Seq<u8>>,
    end: Option<Seq<u8>>,
    s: Seq<Item>,
) -> bool {
    &&& sorted(item_keys(s))
    &&& forall|i: int|
        0 <= i < s.len() ==> m.contains_key((#[trigger] s[i]).0) && m[s[i].0] == s[i].1 && in_range(
            s[i].0,
            start,
            end,
        )
    &&& forall|k: Seq<u8>| #[trigger]
        m.contains_key(k) && in_range(k, start, end) ==> has_key(s, k)
}

pub open spec fn has_key(s: Seq<Item>, k: Seq<u8>) -> bool {
    exists|i: int| 0 <= i < s.len() && (#[trigger] s[i]).0 == k
}

/// Two lists of the same thing are the same.
pub proof fn law_lists_is_unique(
    m: Map<Seq<u8>, Seq<u8>>,
    start: Option<Seq<u8>>,
    end: Option<Seq<u8>>,
    a: Seq<Item>,
    b: Seq<Item>,
)
    requires
        lists(m, start, end, a),
        lists(m, start, end, b),
    ensures
        a == b,
{
    lemma_lists_prefix(m, start, end, a, b, a.len() as int);
    lemma_lists_prefix(m, start, end, b, a, b.len() as int);
    assert(a =~= b);
}

/// The first `n` items of one list are those of another.
proof fn lemma_lists_prefix(
    m: Map<Seq<u8>, Seq<u8>>,
    start: Option<Seq<u8>>,
    end: Option<Seq<u8>>,
    a: Seq<Item>,
    b: Seq<Item>,
    n: int,
)
    requires
        lists(m, start, end, a),
        lists(m, start, end, b),
        0 <= n <= a.len(),
    ensures
        n <= b.len(),
        forall|i: int| 0 <= i < n ==> #[trigger] a[i] == b[i],
    decreases n,
{
    if n > 0 {
        lemma_lists_prefix(m, start, end, a, b, n - 1);
        let ka = item_keys(a);
        let kb = item_keys(b);
        let k = a[n - 1].0;
        assert(m.contains_key(k));
        assert(has_key(b, k));
        let j = choose|j: int| 0 <= j < b.len() && (#[trigger] b[j]).0 == k;
        if j < n - 1 {
            assert(a[j] == b[j]);
            assert(lex_lt(ka[j], ka[n - 1]));
            lemma_lex_irrefl(k);
        }
        if j > n - 1 {
            let q = b[n - 1].0;
            assert(lex_lt(kb[n - 1], kb[j]));
            assert(m.contains_key(q));
            assert(has_key(a, q));
            let x = choose|x: int| 0 <= x < a.len() && (#[trigger] a[x]).0 == q;
            if x < n - 1 {
                assert(a[x] == b[x]);
                assert(lex_lt(kb[x], kb[n - 1]));
                lemma_lex_irrefl(q);
            } else if x == n - 1 {
                lemma_lex_irrefl(q);
            } else {
                assert(lex_lt(ka[n - 1], ka[x]));
                lemma_lex_trans(q, k, q);
                lemma_lex_irrefl(q);
            }
        }
        assert(j == n - 1);
        assert(m[a[n - 1].0] == a[n - 1].1);
        assert(m[b[n - 1].0] == b[n - 1].1);
        assert(a[n - 1] == b[n - 1]);
    }
}

/// The items of a list up to the first key at or past `end`.
pub open spec fn until(s: Seq<Item>, end: Option<Seq<u8>>) -> Seq<Item>
    decreases s.len(),
{
    if s.len() == 0 {
        Seq::empty()
    } else if end matches Some(e) && !lex_lt(s[0].0, e) {
        Seq::empty()
    } else {
        seq![s[0]] + until(s.subrange(1, s.len() as int), end)
    }
}

proof fn lemma_until(
    m: Map<Seq<u8>, Seq<u8>>,
    start: Option<Seq<u8>>,
    end: Option<Seq<u8>>,
    s: Seq<Item>,
)
    requires
        lists(m, start, None, s),
    ensures
        lists(m, start, end, until(s, end)),
{
    lemma_until_prefix(s, end);
    let t = until(s, end);
    assert forall|i: int, j: int| 0 <= i < j < item_keys(t).len() implies lex_lt(
        #[trigger] item_keys(t)[i],
        #[trigger] item_keys(t)[j],
    ) by {
        assert(t[i] == s[i] && t[j] == s[j]);
        assert(lex_lt(item_keys(s)[i], item_keys(s)[j]));
    }
    assert forall|i: int| 0 <= i < t.len() implies m.contains_key((#[trigger] t[i]).0) && m[t[i].0]
        == t[i].1 && in_range(t[i].0, start, end) by {
        assert(t[i] == s[i]);
    }
    assert forall|k: Seq<u8>| #[trigger]
        m.contains_key(k) && in_range(k, start, end) implies has_key(t, k) by {
        assert(in_range(k, start, None));
        assert(has_key(s, k));
        let i = choose|i: int| 0 <= i < s.len() && (#[trigger] s[i]).0 == k;
        if i >= t.len() {
            let e = end->0;
            let c = s[t.len() as int].0;
            assert(!lex_lt(c, e));
            if i > t.len() {
                assert(lex_lt(item_keys(s)[t.len() as int], item_keys(s)[i]));
                lemma_lex_trans(c, k, e);
            }
        }
        assert(t[i] == s[i]);
    }
}

proof fn lemma_until_prefix(s: Seq<Item>, end: Option<Seq<u8>>)
    ensures
        until(s, end).len() <= s.len(),
        forall|i: int| 0 <= i < until(s, end).len() ==> #[trigger] until(s, end)[i] == s[i],
        forall|i: int|
            0 <= i < until(s, end).len() ==> (end matches Some(e) ==> lex_lt(
                (#[trigger] until(s, end)[i]).0,
                e,
            )),
        until(s, end).len() < s.len() ==> (end matches Some(e) && !lex_lt(
            s[until(s, end).len() as int].0,
            e,
        )),
    decreases s.len(),
{
    if s.len() > 0 {
        let r = s.subrange(1, s.len() as int);
        lemma_until_prefix(r, end);
        let t = until(s, end);
        if end matches Some(e) && !lex_lt(s[0].0, e) {
        } else {
            let u = until(r, end);
            assert(t == seq![s[0]] + u);
            assert forall|i: int| 0 <= i < t.len() implies #[trigger] t[i] == s[i] && (end matches Some(
                e,
            ) ==> lex_lt(t[i].0, e)) by {
                if i > 0 {
                    assert(t[i] == u[i - 1]);
                    assert(r[i - 1] == s[i]);
                }
            }
            if t.len() < s.len() {
                assert(r[u.len() as int] == s[t.len() as int]);
            }
        }
    }
}

// ---------------------------------------------------------------------
// the items of a tree
// ---------------------------------------------------------------------

/// How many leading keys are below `k`.
pub open spec fn lower(ks: Seq<Seq<u8>>, k: Seq<u8>) -> int
    decreases ks.len(),
{
    if ks.len() == 0 {
        0
    } else if lex_lt(ks.last(), k) {
        ks.len() as int
    } else {
        lower(ks.drop_last(), k)
    }
}

proof fn lemma_lower_is(ks: Seq<Seq<u8>>, k: Seq<u8>, i: int)
    requires
        0 <= i <= ks.len(),
        forall|j: int| 0 <= j < i ==> lex_lt(#[trigger] ks[j], k),
        forall|j: int| i <= j < ks.len() ==> !lex_lt(#[trigger] ks[j], k),
    ensures
        lower(ks, k) == i,
    decreases ks.len(),
{
    if ks.len() > 0 {
        if i < ks.len() {
            assert(!lex_lt(ks[ks.len() - 1], k));
            let d = ks.drop_last();
            assert forall|j: int| 0 <= j < i implies lex_lt(#[trigger] d[j], k) by {
                assert(d[j] == ks[j]);
            }
            assert forall|j: int| i <= j < d.len() implies !lex_lt(#[trigger] d[j], k) by {
                assert(d[j] == ks[j]);
            }
            lemma_lower_is(d, k, i);
        } else {
            assert(lex_lt(ks[ks.len() - 1], k));
        }
    }
}

proof fn lemma_lower(ks: Seq<Seq<u8>>, k: Seq<u8>)
    requires
        sorted(ks),
    ensures
        0 <= lower(ks, k) <= ks.len(),
        forall|j: int| 0 <= j < lower(ks, k) ==> lex_lt(#[trigger] ks[j], k),
        forall|j: int| lower(ks, k) <= j < ks.len() ==> !lex_lt(#[trigger] ks[j], k),
    decreases ks.len(),
{
    if ks.len() > 0 {
        let d = ks.drop_last();
        let n = ks.len() - 1;
        if lex_lt(ks.last(), k) {
            assert forall|j: int| 0 <= j < ks.len() implies lex_lt(#[trigger] ks[j], k) by {
                if j < n {
                    assert(lex_lt(ks[j], ks[n]));
                    lemma_lex_trans(ks[j], ks[n], k);
                }
            }
        } else {
            assert(sorted(d)) by {
                assert forall|i: int, j: int| 0 <= i < j < d.len() implies lex_lt(
                    #[trigger] d[i],
                    #[trigger] d[j],
                ) by {
                    assert(lex_lt(ks[i], ks[j]));
                }
            }
            lemma_lower(d, k);
            assert forall|j: int| 0 <= j < lower(ks, k) implies lex_lt(#[trigger] ks[j], k) by {
                assert(d[j] == ks[j]);
            }
            assert forall|j: int| lower(ks, k) <= j < ks.len() implies !lex_lt(#[trigger] ks[j], k) by {
                if j < n {
                    assert(d[j] == ks[j]);
                }
            }
        }
    }
}

/// The first entry at or past `start`.
pub open spec fn first_entry(e: Seq<Entry>, start: Option<Seq<u8>>) -> int {
    match start {
        Some(k) => lower(entry_keys(e), k),
        None => 0,
    }
}

/// The child that covers `start`.
pub open spec fn first_kid(seps: Seq<Seq<u8>>, start: Option<Seq<u8>>) -> int {
    match start {
        Some(k) => route(seps, k),
        None => 0,
    }
}

/// The items of a tree from `start` on.
pub open spec fn from(t: Tree, start: Option<Seq<u8>>) -> Seq<Item>
    decreases t,
{
    match t {
        Tree::Leaf(id, e) => entry_items(e).subrange(first_entry(e, start), e.len() as int),
        Tree::Branch(id, seps, kids) => {
            let i = first_kid(seps, start);
            if 0 <= i < kids.len() {
                from(kids[i], start) + items_of(kids.subrange(i + 1, kids.len() as int))
            } else {
                Seq::empty()
            }
        },
    }
}

/// Items in order, between two keys.
pub open spec fn ordered(s: Seq<Item>, lo: Option<Seq<u8>>, hi: Option<Seq<u8>>) -> bool {
    &&& sorted(item_keys(s))
    &&& forall|i: int| 0 <= i < s.len() ==> in_range((#[trigger] s[i]).0, lo, hi)
}

/// Two ordered lists, one above the other, make one.
proof fn lemma_ordered_join(
    a: Seq<Item>,
    b: Seq<Item>,
    lo: Option<Seq<u8>>,
    mid: Seq<u8>,
    hi: Option<Seq<u8>>,
)
    requires
        ordered(a, lo, Some(mid)),
        ordered(b, Some(mid), hi),
        in_range(mid, lo, hi),
    ensures
        ordered(a + b, lo, hi),
{
    let s = a + b;
    assert forall|i: int| 0 <= i < s.len() implies in_range((#[trigger] s[i]).0, lo, hi) by {
        if i < a.len() {
            let k = a[i].0;
            assert(in_range(k, lo, Some(mid)));
            if hi is Some {
                lemma_lex_trans(k, mid, hi->0);
            }
        } else {
            let k = b[i - a.len()].0;
            assert(in_range(k, Some(mid), hi));
            if lo is Some {
                lemma_lex_facts2(lo->0, mid);
                lemma_lex_facts2(mid, k);
                if lo->0 != mid && mid != k {
                    lemma_lex_trans(lo->0, mid, k);
                }
            }
        }
    }
    assert forall|i: int, j: int| 0 <= i < j < item_keys(s).len() implies lex_lt(
        #[trigger] item_keys(s)[i],
        #[trigger] item_keys(s)[j],
    ) by {
        if j < a.len() {
            assert(lex_lt(item_keys(a)[i], item_keys(a)[j]));
        } else if i >= a.len() {
            assert(lex_lt(item_keys(b)[i - a.len()], item_keys(b)[j - a.len()]));
        } else {
            let x = a[i].0;
            let y = b[j - a.len()].0;
            assert(in_range(x, lo, Some(mid)));
            assert(in_range(y, Some(mid), hi));
            lemma_lex_facts2(mid, y);
            if mid != y {
                lemma_lex_trans(x, mid, y);
            }
        }
    }
}

/// The items of the children from `j` on: in order, and what those children
/// find.
#[verifier::rlimit(60)]
proof fn lemma_tail(
    id: PageId,
    seps: Seq<Seq<u8>>,
    kids: Seq<Tree>,
    ps: u32,
    lo: Option<Seq<u8>>,
    hi: Option<Seq<u8>>,
    j: int,
)
    requires
        Tree::Branch(id, seps, kids).ok(ps, lo, hi),
        0 <= j <= kids.len(),
    ensures
        j < kids.len() ==> ordered(
            items_of(kids.subrange(j, kids.len() as int)),
            kid_lo(seps, lo, j),
            hi,
        ),
        j == kids.len() ==> items_of(kids.subrange(j, kids.len() as int)).len() == 0,
        forall|i: int|
            0 <= i < items_of(kids.subrange(j, kids.len() as int)).len() ==> ({
                let x = #[trigger] items_of(kids.subrange(j, kids.len() as int))[i];
                &&& route(seps, x.0) >= j
                &&& kids[route(seps, x.0)].find(x.0) == Some(x.1)
            }),
        forall|k: Seq<u8>|
            j <= #[trigger] route(seps, k) < kids.len() && kids[route(seps, k)].find(k) is Some
                ==> has_key(items_of(kids.subrange(j, kids.len() as int)), k),
    decreases kids, kids.len() - j,
{
    let n = kids.len() as int;
    let sub = kids.subrange(j, n);
    let s = items_of(sub);
    if j < n {
        let a = kids[j].items();
        let b = items_of(kids.subrange(j + 1, n));
        assert(sub[0] == kids[j]);
        assert(sub.subrange(1, sub.len() as int) =~= kids.subrange(j + 1, n));
        assert(s == a + b);
        let klo = kid_lo(seps, lo, j);
        let khi = kid_hi(seps, hi, j);
        assert(kids[j].ok(ps, klo, khi));
        lemma_items(kids[j], ps, klo, khi);
        lemma_tail(id, seps, kids, ps, lo, hi, j + 1);
        if j + 1 < n {
            let mid = seps[j];
            assert(in_range(mid, klo, hi)) by {
                assert(in_range(seps[j], lo, hi));
                if j > 0 {
                    assert(lex_lt(seps[j - 1], seps[j]));
                    lemma_lex_facts2(seps[j - 1], seps[j]);
                }
            }
            lemma_ordered_join(a, b, klo, mid, hi);
        } else {
            assert(s =~= a);
        }
        assert forall|i: int| 0 <= i < s.len() implies ({
            let x = #[trigger] s[i];
            &&& route(seps, x.0) >= j
            &&& kids[route(seps, x.0)].find(x.0) == Some(x.1)
        }) by {
            if i < a.len() {
                let x = a[i];
                assert(s[i] == x);
                assert(in_range(x.0, klo, khi));
                assert(kids[j].find(x.0) == Some(x.1));
                if j > 0 {
                    lemma_lex_facts2(seps[j - 1], x.0);
                }
                if j < seps.len() {
                    lemma_lex_facts2(seps[j], x.0);
                }
                lemma_route_is(seps, x.0, j);
            } else {
                assert(s[i] == b[i - a.len()]);
            }
        }
        assert forall|k: Seq<u8>|
            j <= #[trigger] route(seps, k) < kids.len() && kids[route(seps, k)].find(
                k,
            ) is Some implies has_key(s, k) by {
            if route(seps, k) == j {
                assert(has_key(a, k));
                let i = choose|i: int| 0 <= i < a.len() && (#[trigger] a[i]).0 == k;
                assert(s[i] == a[i]);
            } else {
                assert(has_key(b, k));
                let i = choose|i: int| 0 <= i < b.len() && (#[trigger] b[i]).0 == k;
                assert(s[a.len() + i] == b[i]);
            }
        }
    } else {
        assert(sub.len() == 0);
    }
}

/// The items of a tree: in order, and what the tree finds.
proof fn lemma_items(t: Tree, ps: u32, lo: Option<Seq<u8>>, hi: Option<Seq<u8>>)
    requires
        t.ok(ps, lo, hi),
    ensures
        ordered(t.items(), lo, hi),
        forall|i: int|
            0 <= i < t.items().len() ==> t.find((#[trigger] t.items()[i]).0) == Some(t.items()[i].1),
        forall|k: Seq<u8>| (#[trigger] t.find(k)) is Some ==> has_key(t.items(), k),
    decreases t, 0int,
{
    match t {
        Tree::Leaf(id, e) => {
            lemma_entry_items(id, e, ps, lo, hi);
        },
        Tree::Branch(id, seps, kids) => {
            lemma_tail(id, seps, kids, ps, lo, hi, 0);
            assert(kids.subrange(0, kids.len() as int) =~= kids);
            let s = t.items();
            assert(s == items_of(kids));
            assert forall|i: int| 0 <= i < s.len() implies t.find((#[trigger] s[i]).0) == Some(
                s[i].1,
            ) by {
                lemma_route(seps, s[i].0);
            }
            assert forall|k: Seq<u8>| (#[trigger] t.find(k)) is Some implies has_key(s, k) by {
                lemma_route(seps, k);
                assert(t.find(k) == kids[route(seps, k)].find(k));
            }
        },
    }
}

proof fn lemma_entry_items(
    id: PageId,
    e: Seq<Entry>,
    ps: u32,
    lo: Option<Seq<u8>>,
    hi: Option<Seq<u8>>,
)
    requires
        Tree::Leaf(id, e).ok(ps, lo, hi),
    ensures
        ordered(entry_items(e), lo, hi),
        forall|i: int|
            0 <= i < e.len() ==> Tree::Leaf(id, e).find((#[trigger] entry_items(e)[i]).0) == Some(
                entry_items(e)[i].1,
            ),
        forall|k: Seq<u8>|
            (#[trigger] Tree::Leaf(id, e).find(k)) is Some ==> has_key(entry_items(e), k),
{
    let s = entry_items(e);
    let t = Tree::Leaf(id, e);
    assert(item_keys(s) =~= entry_keys(e));
    assert forall|i: int| 0 <= i < s.len() implies in_range((#[trigger] s[i]).0, lo, hi) by {
        assert(in_range(e[i].0, lo, hi));
    }
    assert forall|i: int| 0 <= i < e.len() implies t.find((#[trigger] s[i]).0) == Some(s[i].1) by {
        lemma_entries_find(e, e[i].0, i);
    }
    assert forall|k: Seq<u8>| (#[trigger] t.find(k)) is Some implies has_key(s, k) by {
        let i = choose|i: int| 0 <= i < e.len() && (#[trigger] e[i]).0 == k;
        assert(s[i].0 == k);
    }
}

/// What a list from `start` on is, with respect to a tree.
pub open spec fn gives(t: Tree, start: Option<Seq<u8>>, s: Seq<Item>) -> bool {
    &&& forall|i: int|
        0 <= i < s.len() ==> t.find((#[trigger] s[i]).0) == Some(s[i].1) && in_range(
            s[i].0,
            start,
            None,
        )
    &&& forall|k: Seq<u8>| (#[trigger] t.find(k)) is Some && in_range(k, start, None) ==> has_key(s, k)
}

proof fn lemma_from_leaf(
    id: PageId,
    e: Seq<Entry>,
    ps: u32,
    lo: Option<Seq<u8>>,
    hi: Option<Seq<u8>>,
    start: Option<Seq<u8>>,
)
    requires
        Tree::Leaf(id, e).ok(ps, lo, hi),
    ensures
        ordered(from(Tree::Leaf(id, e), start), lo, hi),
        gives(Tree::Leaf(id, e), start, from(Tree::Leaf(id, e), start)),
{
    let t = Tree::Leaf(id, e);
    let s = from(t, start);
    lemma_entry_items(id, e, ps, lo, hi);
    let all = entry_items(e);
    let ks = entry_keys(e);
    let at = first_entry(e, start);
    if let Some(k) = start {
        lemma_lower(ks, k);
    }
    assert(s == all.subrange(at, e.len() as int));
    assert forall|i: int, j: int| 0 <= i < j < item_keys(s).len() implies lex_lt(
        #[trigger] item_keys(s)[i],
        #[trigger] item_keys(s)[j],
    ) by {
        assert(lex_lt(item_keys(all)[at + i], item_keys(all)[at + j]));
    }
    assert forall|i: int| 0 <= i < s.len() implies t.find((#[trigger] s[i]).0) == Some(s[i].1)
        && in_range(s[i].0, start, None) && in_range(s[i].0, lo, hi) by {
        assert(s[i] == all[at + i]);
        if let Some(k) = start {
            assert(!lex_lt(ks[at + i], k));
            lemma_lex_facts2(k, ks[at + i]);
        }
    }
    assert forall|k: Seq<u8>| (#[trigger] t.find(k)) is Some && in_range(
        k,
        start,
        None,
    ) implies has_key(s, k) by {
        assert(has_key(all, k));
        let i = choose|i: int| 0 <= i < all.len() && (#[trigger] all[i]).0 == k;
        if i < at {
            let q = start->0;
            assert(lex_lt(ks[i], q));
            lemma_lex_facts2(q, k);
            if q != k {
                lemma_lex_trans(q, k, q);
            }
            lemma_lex_irrefl(q);
        }
        assert(s[i - at] == all[i]);
    }
}

/// What a key's position relative to the start says about its child.
proof fn lemma_start_route(
    seps: Seq<Seq<u8>>,
    start: Option<Seq<u8>>,
    k: Seq<u8>,
)
    requires
        sorted(seps),
        in_range(k, start, None),
    ensures
        route(seps, k) >= first_kid(seps, start),
{
    lemma_route(seps, k);
    if let Some(q) = start {
        lemma_route(seps, q);
        let r = route(seps, k);
        if r < route(seps, q) {
            assert(lex_le(seps[r], q));
            assert(lex_lt(k, seps[r]));
            lemma_lex_facts2(seps[r], k);
            lemma_lex_facts2(seps[r], q);
            lemma_lex_facts2(q, k);
            assert(lex_lt(k, seps[r]));
            if seps[r] != q {
                lemma_lex_trans(k, seps[r], q);
            }
            if q != k {
                lemma_lex_trans(k, q, k);
            }
            lemma_lex_irrefl(k);
        }
    }
}

/// A key of a later child is past the start.
proof fn lemma_later_kid(seps: Seq<Seq<u8>>, start: Option<Seq<u8>>, k: Seq<u8>)
    requires
        sorted(seps),
        route(seps, k) > first_kid(seps, start),
    ensures
        in_range(k, start, None),
{
    lemma_route(seps, k);
    if let Some(q) = start {
        lemma_route(seps, q);
        let i = route(seps, q);
        assert(lex_le(seps[i], k));
        assert(lex_lt(q, seps[i]));
        lemma_lex_facts2(seps[i], q);
        lemma_lex_facts2(seps[i], k);
        if seps[i] != k {
            lemma_lex_trans(q, seps[i], k);
        }
        lemma_lex_facts2(q, k);
    }
}

/// The child that covers a key within its bounds.
proof fn lemma_kid_route(
    seps: Seq<Seq<u8>>,
    lo: Option<Seq<u8>>,
    hi: Option<Seq<u8>>,
    i: int,
    k: Seq<u8>,
)
    requires
        sorted(seps),
        0 <= i <= seps.len(),
        in_range(k, kid_lo(seps, lo, i), kid_hi(seps, hi, i)),
    ensures
        route(seps, k) == i,
{
    if i > 0 {
        lemma_lex_facts2(seps[i - 1], k);
    }
    if i < seps.len() {
        lemma_lex_facts2(seps[i], k);
    }
    lemma_route_is(seps, k, i);
}

#[verifier::rlimit(40)]
proof fn lemma_from_branch_order(
    id: PageId,
    seps: Seq<Seq<u8>>,
    kids: Seq<Tree>,
    ps: u32,
    lo: Option<Seq<u8>>,
    hi: Option<Seq<u8>>,
    i: int,
    a: Seq<Item>,
)
    requires
        Tree::Branch(id, seps, kids).ok(ps, lo, hi),
        0 <= i < kids.len(),
        ordered(a, kid_lo(seps, lo, i), kid_hi(seps, hi, i)),
    ensures
        ordered(a + items_of(kids.subrange(i + 1, kids.len() as int)), lo, hi),
{
    let n = kids.len() as int;
    let klo = kid_lo(seps, lo, i);
    lemma_tail(id, seps, kids, ps, lo, hi, i + 1);
    let b = items_of(kids.subrange(i + 1, n));
    let s = a + b;
    assert(ordered(s, klo, hi)) by {
        if i + 1 < n {
            let mid = seps[i];
            assert(in_range(mid, klo, hi)) by {
                assert(in_range(seps[i], lo, hi));
                if i > 0 {
                    assert(lex_lt(seps[i - 1], seps[i]));
                    lemma_lex_facts2(seps[i - 1], seps[i]);
                }
            }
            lemma_ordered_join(a, b, klo, mid, hi);
        } else {
            assert(s =~= a);
        }
    }
    assert forall|x: int| 0 <= x < s.len() implies in_range((#[trigger] s[x]).0, lo, hi) by {
        assert(in_range(s[x].0, klo, hi));
        if i > 0 && lo is Some {
            assert(in_range(seps[i - 1], lo, hi));
            lemma_lex_facts2(lo->0, seps[i - 1]);
            lemma_lex_facts2(seps[i - 1], s[x].0);
            if lo->0 != seps[i - 1] && seps[i - 1] != s[x].0 {
                lemma_lex_trans(lo->0, seps[i - 1], s[x].0);
            }
        }
    }
}

#[verifier::rlimit(40)]
proof fn lemma_from_branch_gives(
    id: PageId,
    seps: Seq<Seq<u8>>,
    kids: Seq<Tree>,
    ps: u32,
    lo: Option<Seq<u8>>,
    hi: Option<Seq<u8>>,
    start: Option<Seq<u8>>,
    a: Seq<Item>,
)
    requires
        Tree::Branch(id, seps, kids).ok(ps, lo, hi),
        0 <= first_kid(seps, start) < kids.len(),
        ordered(
            a,
            kid_lo(seps, lo, first_kid(seps, start)),
            kid_hi(seps, hi, first_kid(seps, start)),
        ),
        gives(kids[first_kid(seps, start)], start, a),
    ensures
        gives(
            Tree::Branch(id, seps, kids),
            start,
            a + items_of(kids.subrange(first_kid(seps, start) + 1, kids.len() as int)),
        ),
{
    let t = Tree::Branch(id, seps, kids);
    let i = first_kid(seps, start);
    lemma_tail(id, seps, kids, ps, lo, hi, i + 1);
    let b = items_of(kids.subrange(i + 1, kids.len() as int));
    let s = a + b;
    assert forall|x: int| 0 <= x < s.len() implies t.find((#[trigger] s[x]).0) == Some(s[x].1)
        && in_range(s[x].0, start, None) by {
        let k = s[x].0;
        lemma_route(seps, k);
        assert(t.find(k) == kids[route(seps, k)].find(k));
        if x < a.len() {
            assert(s[x] == a[x]);
            lemma_kid_route(seps, lo, hi, i, k);
        } else {
            assert(s[x] == b[x - a.len()]);
            lemma_later_kid(seps, start, k);
        }
    }
    assert forall|k: Seq<u8>| (#[trigger] t.find(k)) is Some && in_range(
        k,
        start,
        None,
    ) implies has_key(s, k) by {
        lemma_route(seps, k);
        let r = route(seps, k);
        assert(t.find(k) == kids[r].find(k));
        lemma_start_route(seps, start, k);
        if r == i {
            assert(has_key(a, k));
            let x = choose|x: int| 0 <= x < a.len() && (#[trigger] a[x]).0 == k;
            assert(s[x] == a[x]);
        } else {
            assert(has_key(b, k));
            let x = choose|x: int| 0 <= x < b.len() && (#[trigger] b[x]).0 == k;
            assert(s[a.len() + x] == b[x]);
        }
    }
}

proof fn lemma_from(
    t: Tree,
    ps: u32,
    lo: Option<Seq<u8>>,
    hi: Option<Seq<u8>>,
    start: Option<Seq<u8>>,
)
    requires
        t.ok(ps, lo, hi),
    ensures
        ordered(from(t, start), lo, hi),
        gives(t, start, from(t, start)),
    decreases t,
{
    match t {
        Tree::Leaf(id, e) => {
            lemma_from_leaf(id, e, ps, lo, hi, start);
        },
        Tree::Branch(id, seps, kids) => {
            let i = first_kid(seps, start);
            if let Some(k) = start {
                lemma_route(seps, k);
            }
            let klo = kid_lo(seps, lo, i);
            let khi = kid_hi(seps, hi, i);
            assert(kids[i].ok(ps, klo, khi));
            lemma_from(kids[i], ps, klo, khi, start);
            let a = from(kids[i], start);
            lemma_from_branch_order(id, seps, kids, ps, lo, hi, i, a);
            lemma_from_branch_gives(id, seps, kids, ps, lo, hi, start, a);
        },
    }
}

/// From the very start, the items of a tree are all its items.
proof fn lemma_from_all(t: Tree, ps: u32, lo: Option<Seq<u8>>, hi: Option<Seq<u8>>)
    requires
        t.ok(ps, lo, hi),
    ensures
        from(t, None) == t.items(),
    decreases t,
{
    match t {
        Tree::Leaf(id, e) => {
            assert(from(t, None) =~= entry_items(e));
        },
        Tree::Branch(id, seps, kids) => {
            assert(kids[0].ok(ps, kid_lo(seps, lo, 0), kid_hi(seps, hi, 0)));
            lemma_from_all(kids[0], ps, kid_lo(seps, lo, 0), kid_hi(seps, hi, 0));
        },
    }
}

// ---------------------------------------------------------------------
// the cursor
// ---------------------------------------------------------------------

/// A branch on the path, with the index of the conceptual child that the
/// walk is in.
struct Frame {
    first_child: PageId,
    entries: Vec<(Vec<u8>, PageId)>,
    at: usize,
}

/// A subtree that keeps order, whatever its bounds.
pub open spec fn sane(t: Tree, pages: Pages, ps: u32) -> bool {
    &&& t.holds(pages, ps)
    &&& exists|lo: Option<Seq<u8>>, hi: Option<Seq<u8>>| #[trigger] t.ok(ps, lo, hi)
}

/// A path of branches, each with the index of its next child.
pub type Path = Seq<(Tree, int)>;

pub open spec fn kids_of(t: Tree) -> Seq<Tree> {
    match t {
        Tree::Leaf(id, e) => Seq::empty(),
        Tree::Branch(id, seps, kids) => kids,
    }
}

/// The children a path still has to visit, as one list.
pub open spec fn path_items(p: Path) -> Seq<Item>
    decreases p.len(),
{
    if p.len() == 0 {
        Seq::empty()
    } else {
        let t = p.last();
        items_of(kids_of(t.0).subrange(t.1, kids_of(t.0).len() as int)) + path_items(p.drop_last())
    }
}

pub open spec fn path_nodes(p: Path) -> nat
    decreases p.len(),
{
    if p.len() == 0 {
        0
    } else {
        let t = p.last();
        nodes_of(kids_of(t.0).subrange(t.1, kids_of(t.0).len() as int)) + path_nodes(p.drop_last())
    }
}

/// Key-ordered cursor over a range of one tree.
pub struct Scan<'a, P: ReadPages> {
    src: &'a P,
    stack: Vec<Frame>,
    leaf: Vec<(Vec<u8>, ValueRef)>,
    leaf_idx: usize,
    end: Option<Vec<u8>>,
    failed: bool,
    /// How many more nodes may be read before the tree must be a loop.
    budget: u64,
    path: Ghost<Path>,
    here: Ghost<Seq<Entry>>,
}

impl<'a, P: ReadPages> Scan<'a, P> {
    pub closed spec fn wf(&self) -> bool {
        self.src.wf() && self.leaf_idx <= self.leaf@.len()
    }

    /// What the cursor walks over.
    pub closed spec fn source(&self) -> &'a P {
        self.src
    }

    /// Whether an error ended the walk.
    pub closed spec fn has_failed(&self) -> bool {
        self.failed
    }

    /// Whether the cursor stands in a sound tree.
    pub closed spec fn sound(&self) -> bool {
        let pages = self.src.pages();
        let ps = self.src.size();
        let here = self.here@;
        let path = self.path@;
        &&& !self.failed
        &&& leaf_view(self.leaf@) == entry_cells(here)
        &&& forall|i: int|
            0 <= i < here.len() ==> (#[trigger] here[i]).1.ok(ps) && here[i].1.holds(pages, ps)
        &&& path.len() == self.stack@.len()
        &&& forall|i: int|
            0 <= i < path.len() ==> frame_is(#[trigger] self.stack@[i], path[i], pages, ps)
        &&& path_nodes(path) <= self.budget
    }

    /// Everything still ahead, whatever the end.
    pub closed spec fn ahead(&self) -> Seq<Item> {
        entry_items(self.here@).subrange(self.leaf_idx as int, self.here@.len() as int)
            + path_items(self.path@)
    }

    pub closed spec fn stop(&self) -> Option<Seq<u8>> {
        match self.end {
            Some(e) => Some(e@),
            None => None,
        }
    }

    /// What the cursor still has to give, in order.
    pub open spec fn remaining(&self) -> Seq<Item> {
        until(self.ahead(), self.stop())
    }

    /// How many more nodes the cursor may read.
    pub closed spec fn steps(&self) -> nat {
        self.budget as nat
    }

    /// How many entries of its leaf the cursor has not passed.
    pub closed spec fn here_left(&self) -> nat {
        (self.leaf@.len() - self.leaf_idx) as nat
    }
}

/// A frame of the stack, against the branch it was read from.
spec fn frame_is(f: Frame, t: (Tree, int), pages: Pages, ps: u32) -> bool {
    match t.0 {
        Tree::Leaf(id, e) => false,
        Tree::Branch(id, seps, kids) => {
            &&& kids.len() == seps.len() + 1
            &&& f.first_child == kids[0].root()
            &&& branch_view(f.entries@) == kid_cells(seps, kids)
            &&& f.at + 1 == t.1
            &&& 0 <= t.1 <= kids.len()
            &&& forall|i: int| 0 <= i < kids.len() ==> sane(#[trigger] kids[i], pages, ps)
        },
    }
}

proof fn lemma_nodes_split(kids: Seq<Tree>, i: int)
    requires
        0 <= i < kids.len(),
    ensures
        nodes_of(kids) >= kids[i].nodes() + nodes_of(kids.subrange(i + 1, kids.len() as int)),
    decreases i,
{
    let n = kids.len() as int;
    if i > 0 {
        let r = kids.subrange(1, n);
        lemma_nodes_split(r, i - 1);
        assert(r[i - 1] == kids[i]);
        assert(r.subrange(i, n - 1) =~= kids.subrange(i + 1, n));
    }
}

impl<'a, P: ReadPages> Scan<'a, P> {
    /// A cursor over `[start, end)` under `root`; `None` means unbounded.
    pub fn new(src: &'a P, root: PageId, start: Option<&[u8]>, end: Option<&[u8]>) -> (r: Result<
        Self,
    >)
        requires
            src.wf(),
        ensures
            r matches Ok(s) ==> s.wf() && s.source() == src && !s.has_failed(),
            root == NIL_PAGE ==> (r matches Ok(s) && s.sound() && s.remaining().len() == 0),
            forall|t: Tree| #[trigger]
                tree_at(src.pages(), src.size(), root, t) ==> match r {
                    Ok(s) => s.sound() && lists(map_of(Some(t)), slice_opt(start), slice_opt(end), s.remaining()),
                    Err(_) => !src.reliable(),
                },
    {
        let budget: u64 = src.page_bound();
        let stop: Option<Vec<u8>> = match end {
            Some(e) => Some(copy_vec(e)),
            None => None,
        };
        let ghost ot = crate::btree::some_tree(src.pages(), src.size(), root);
        let ghost t0 = ot->0;
        let mut scan = Scan {
            src,
            stack: Vec::new(),
            leaf: Vec::new(),
            leaf_idx: 0,
            end: stop,
            failed: false,
            budget,
            path: Ghost(Seq::empty()),
            here: Ghost(Seq::empty()),
        };
        proof {
            assert(leaf_view(scan.leaf@) =~= entry_cells(scan.here@));
            assert(scan.sound());
            assert(scan.ahead() =~= Seq::empty());
            assert forall|t: Tree| #[trigger]
                tree_at(src.pages(), src.size(), root, t) implies ot == Some(t) by {
                crate::btree::lemma_some_tree(src.pages(), src.size(), root, t);
            }
            if ot is Some {
                assert(tree_at(src.pages(), src.size(), root, t0));
                lemma_tree_nodes(t0, src.pages(), src.size(), budget);
                assert(t0.ok(src.size(), None, None));
                assert(sane(t0, src.pages(), src.size()));
            }
        }
        if root != NIL_PAGE {
            if let Err(e) = scan.descend(root, start, Ghost(t0)) {
                return Err(e);
            }
        }
        proof {
            if ot is Some {
                lemma_from(t0, src.size(), None, None, slice_opt(start));
                let all = from(t0, slice_opt(start));
                assert(scan.ahead() =~= all);
                let m = map_of(Some(t0));
                assert(lists(m, slice_opt(start), None, all)) by {
                    assert forall|k: Seq<u8>| #[trigger]
                        m.contains_key(k) && in_range(k, slice_opt(start), None) implies has_key(
                        all,
                        k,
                    ) by {
                        assert(t0.find(k) is Some);
                    }
                }
                lemma_until(m, slice_opt(start), slice_opt(end), all);
            }
        }
        Ok(scan)
    }

    /// Walk down to the leaf that contains the first key >= start,
    /// remembering the path for later sideways moves.
    fn descend(&mut self, page: PageId, start: Option<&[u8]>, Ghost(t): Ghost<Tree>) -> (r: Result<()>)
        requires
            old(self).wf(),
        ensures
            final(self).wf(),
            final(self).source() == old(self).source(),
            final(self).has_failed() == old(self).has_failed(),
            final(self).stop() == old(self).stop(),
            r is Ok ==> final(self).steps() < old(self).steps(),
            old(self).sound() && t.root() == page && sane(
                t,
                old(self).source().pages(),
                old(self).source().size(),
            ) && old(self).leaf_idx == old(self).leaf@.len() && t.nodes() + path_nodes(old(self).path@)
                <= old(self).steps() ==> match r {
                Ok(_) => final(self).sound() && final(self).ahead() == from(t, slice_opt(start))
                    + old(self).ahead(),
                Err(_) => !old(self).source().reliable(),
            },
    {
        let ghost begin = *self;
        let ghost pages = self.src.pages();
        let ghost ps = self.src.size();
        let ghost good = self.sound() && t.root() == page && sane(t, pages, ps) && self.leaf_idx
            == self.leaf@.len() && t.nodes() + path_nodes(self.path@) <= self.budget;
        let ghost mut cur = t;
        let size: u32 = self.src.page_size();
        let mut at: PageId = page;
        proof {
            if good {
                assert(begin.here@.len() == begin.leaf@.len()) by {
                    assert(leaf_view(begin.leaf@).len() == entry_cells(begin.here@).len());
                }
                assert(begin.ahead() =~= path_items(begin.path@));
            }
        }
        while self.budget > 0
            invariant
                self.wf(),
                begin.wf(),
                begin == *old(self),
                self.src == begin.src,
                self.failed == begin.failed,
                self.stop() == begin.stop(),
                self.leaf == begin.leaf,
                self.leaf_idx == begin.leaf_idx,
                self.here == begin.here,
                self.budget <= begin.budget,
                size == ps,
                crate::page::page_size_ok(ps),
                good == (begin.sound() && t.root() == page && sane(t, pages, ps) && begin.leaf_idx
                    == begin.leaf@.len() && t.nodes() + path_nodes(begin.path@) <= begin.budget),
                pages == self.src.pages(),
                ps == self.src.size(),
                good ==> {
                    &&& self.sound()
                    &&& sane(cur, pages, ps)
                    &&& cur.root() == at
                    &&& cur.nodes() + path_nodes(self.path@) <= self.budget
                    &&& from(cur, slice_opt(start)) + path_items(self.path@) == from(t, slice_opt(start))
                        + begin.ahead()
                },
            decreases self.budget,
        {
            self.budget = self.budget - 1;
            let buf = match self.src.read(at) {
                Ok(b) => b,
                Err(e) => {
                    return Err(e);
                },
            };
            let node = match Node::decode(buf.as_slice(), at) {
                Ok(n) => n,
                Err(e) => {
                    return Err(e);
                },
            };
            match node {
                Node::Branch { first_child, entries } => {
                    let idx: usize = match start {
                        Some(key) => branch_position(&entries, key),
                        None => 0,
                    };
                    let len: usize = entries.len();
                    let child: PageId = child_at(first_child, &entries, idx);
                    let ghost v = entries@;
                    let ghost old_path = self.path@;
                    let ghost old_stack = self.stack@;
                    self.stack.push(Frame { first_child, entries, at: idx });
                    self.path = Ghost(self.path@.push((cur, idx + 1)));
                    at = child;
                    proof {
                        if good {
                            match cur {
                                Tree::Leaf(id, e) => {},
                                Tree::Branch(id, seps, kids) => {
                                    lemma_branch_node(seps, kids);
                                    assert(branch_view(v) == kid_cells(seps, kids));
                                    assert(branch_view(v).len() == v.len());
                                    let (lo, hi) = choose|lo: Option<Seq<u8>>, hi: Option<Seq<u8>>|
                                        #[trigger] cur.ok(ps, lo, hi);
                                    assert forall|i: int| 0 <= i < kids.len() implies sane(
                                        #[trigger] kids[i],
                                        pages,
                                        ps,
                                    ) by {
                                        assert(kids[i].ok(ps, kid_lo(seps, lo, i), kid_hi(seps, hi, i)));
                                    }
                                    let i = idx as int;
                                    if i > 0 {
                                        assert(kid_cells(seps, kids)[i - 1].1 == kids[i].root());
                                        assert(branch_view(v)[i - 1].1 == v[i - 1].1);
                                    }
                                    lemma_nodes_split(kids, i);
                                    assert(self.path@.drop_last() =~= old_path);
                                    assert(from(cur, slice_opt(start)) == from(kids[i], slice_opt(start))
                                        + items_of(kids.subrange(i + 1, kids.len() as int)));
                                    assert(from(kids[i], slice_opt(start)) + path_items(self.path@)
                                        =~= from(cur, slice_opt(start)) + path_items(old_path));
                                    assert forall|j: int| 0 <= j < self.path@.len() implies frame_is(
                                        #[trigger] self.stack@[j],
                                        self.path@[j],
                                        pages,
                                        ps,
                                    ) by {
                                        if j < old_path.len() {
                                            assert(self.stack@[j] == old_stack[j]);
                                            assert(self.path@[j] == old_path[j]);
                                        }
                                    }
                                    cur = kids[i];
                                },
                            }
                        }
                    }
                },
                Node::Leaf { entries } => {
                    let ghost v = entries@;
                    self.leaf_idx = match start {
                        Some(key) => leaf_position(&entries, key).1,
                        None => 0,
                    };
                    self.leaf = entries;
                    let ghost e: Seq<Entry> = match cur {
                        Tree::Leaf(id, e) => e,
                        Tree::Branch(id, s, k) => Seq::empty(),
                    };
                    self.here = Ghost(e);
                    proof {
                        if good {
                            match cur {
                                Tree::Leaf(id, e) => {
                                    assert(leaf_view(v) == entry_cells(e));
                                    assert(leaf_view(v).len() == v.len());
                                    assert(entry_cells(e).len() == e.len());
                                    let (lo, hi) = choose|lo: Option<Seq<u8>>, hi: Option<Seq<u8>>|
                                        #[trigger] cur.ok(ps, lo, hi);
                                    assert(crate::tree::entries_ok(id, e, ps, lo, hi));
                                    if let Some(key) = start {
                                        let ks = entry_keys(e);
                                        assert forall|j: int| 0 <= j < e.len() implies #[trigger] ks[j]
                                            == v[j].0@ by {
                                            assert(leaf_view(v)[j] == entry_cells(e)[j]);
                                        }
                                        assert forall|j: int| self.leaf_idx <= j < e.len() implies !lex_lt(
                                            #[trigger] ks[j],
                                            key@,
                                        ) by {
                                            assert(v[j].0@ == ks[j]);
                                            lemma_lex_facts2(key@, ks[j]);
                                            lemma_lex_irrefl(key@);
                                        }
                                        lemma_lower_is(ks, key@, self.leaf_idx as int);
                                    }
                                    assert(self.ahead() == from(cur, slice_opt(start)) + path_items(
                                        self.path@,
                                    ));
                                },
                                Tree::Branch(id, s, k) => {},
                            }
                        }
                    }
                    return Ok(());
                },
            }
        }
        Err(endless(at))
    }

    /// Move to the next leaf, popping exhausted branches.
    fn advance_leaf(&mut self) -> (r: Result<bool>)
        requires
            old(self).wf(),
            old(self).leaf_idx == old(self).leaf@.len(),
        ensures
            final(self).wf(),
            final(self).source() == old(self).source(),
            final(self).has_failed() == old(self).has_failed(),
            final(self).stop() == old(self).stop(),
            r == Result::<bool>::Ok(true) ==> final(self).steps() < old(self).steps(),
            old(self).sound() ==> match r {
                Ok(more) => {
                    &&& final(self).sound()
                    &&& final(self).ahead() == old(self).ahead()
                    &&& !more ==> final(self).ahead().len() == 0
                },
                Err(_) => !old(self).source().reliable(),
            },
    {
        let ghost begin = *self;
        let ghost pages = self.src.pages();
        let ghost ps = self.src.size();
        let ghost good = self.sound();
        proof {
            if good {
                assert(leaf_view(begin.leaf@).len() == entry_cells(begin.here@).len());
                assert(begin.ahead() =~= path_items(begin.path@));
            }
        }
        while self.stack.len() > 0
            invariant
                self.wf(),
                begin.wf(),
                begin == *old(self),
                self.leaf_idx == self.leaf@.len(),
                self.src == begin.src,
                self.failed == begin.failed,
                self.stop() == begin.stop(),
                self.leaf == begin.leaf,
                self.leaf_idx == begin.leaf_idx,
                self.here == begin.here,
                self.budget == begin.budget,
                pages == self.src.pages(),
                ps == self.src.size(),
                good == begin.sound(),
                good ==> self.here@.len() == self.leaf@.len() && self.sound() && path_items(self.path@)
                    == begin.ahead(),
            decreases self.stack@.len(),
        {
            let ghost path0 = self.path@;
            let ghost stack0 = self.stack@;
            let top = self.stack.pop();
            self.path = Ghost(self.path@.drop_last());
            let ghost path1 = self.path@;
            if let Some(frame) = top {
                let mut frame: Frame = frame;
                let len: usize = frame.entries.len();
                let ghost t = path0.last();
                proof {
                    if good {
                        assert(frame_is(stack0[stack0.len() - 1], path0[path0.len() - 1], pages, ps));
                        assert(branch_view(frame.entries@).len() == frame.entries@.len());
                        assert forall|j: int| 0 <= j < path1.len() implies frame_is(
                            #[trigger] self.stack@[j],
                            path1[j],
                            pages,
                            ps,
                        ) by {
                            assert(self.stack@[j] == stack0[j]);
                            assert(path1[j] == path0[j]);
                        }
                        assert(self.sound());
                    }
                }
                if frame.at >= len {
                    proof {
                        if good {
                            let kids = kids_of(t.0);
                            assert(kids.subrange(t.1, kids.len() as int).len() == 0);
                            assert(path_items(path0) =~= path_items(path1));
                        }
                    }
                    continue;
                }
                frame.at = frame.at + 1;
                let child: PageId = child_at(frame.first_child, &frame.entries, frame.at);
                let ghost old_next = frame.at as int;
                let ghost kid = kids_of(t.0)[old_next];
                let ghost f = frame;
                self.stack.push(frame);
                self.path = Ghost(self.path@.push((t.0, t.1 + 1)));
                proof {
                    if good {
                        match t.0 {
                            Tree::Leaf(id, e) => {},
                            Tree::Branch(id, seps, kids) => {
                                let n = kids.len() as int;
                                let sub = kids.subrange(t.1, n);
                                assert(sub[0] == kid);
                                assert(sub.subrange(1, sub.len() as int) =~= kids.subrange(t.1 + 1, n));
                                assert(sane(kids[old_next], pages, ps));
                                if old_next > 0 {
                                    assert(kid_cells(seps, kids)[old_next - 1].1 == kid.root());
                                    assert(branch_view(f.entries@)[old_next - 1].1 == f.entries@[old_next
                                        - 1].1);
                                }
                                assert(kid.root() == child);
                                assert(self.path@.drop_last() =~= path1);
                                assert(path_nodes(path0) == kid.nodes() + path_nodes(self.path@));
                                assert(path_items(path0) =~= kid.items() + path_items(self.path@));
                                assert forall|j: int| 0 <= j < self.path@.len() implies frame_is(
                                    #[trigger] self.stack@[j],
                                    self.path@[j],
                                    pages,
                                    ps,
                                ) by {
                                    if j < path1.len() {
                                        assert(self.stack@[j] == stack0[j]);
                                        assert(path1[j] == path0[j]);
                                    }
                                }
                                assert(self.sound());
                                let (lo, hi) = choose|lo: Option<Seq<u8>>, hi: Option<Seq<u8>>|
                                    #[trigger] kid.ok(ps, lo, hi);
                                lemma_from_all(kid, ps, lo, hi);
                                assert(self.ahead() =~= path_items(self.path@));
                            },
                        }
                    }
                }
                if let Err(e) = self.descend(child, None, Ghost(kid)) {
                    return Err(e);
                }
                return Ok(true);
            }
        }
        proof {
            if good {
                assert(self.ahead() =~= path_items(self.path@));
            }
        }
        Ok(false)
    }

    /// The next item, or nothing at the end of the range. After an error the
    /// cursor gives nothing more.
    pub fn next(&mut self) -> (r: Option<Result<(Vec<u8>, Vec<u8>)>>)
        requires
            old(self).wf(),
        ensures
            final(self).wf(),
            final(self).source() == old(self).source(),
            old(self).has_failed() ==> r is None && final(self).has_failed(),
            r matches Some(Err(_)) ==> final(self).has_failed(),
            r matches Some(Ok(_)) ==> final(self).steps() < old(self).steps() || (final(self).steps()
                == old(self).steps() && final(self).here_left() < old(self).here_left()),
            old(self).sound() ==> match r {
                Some(Ok((k, v))) => {
                    &&& old(self).remaining().len() > 0
                    &&& old(self).remaining()[0] == (k@, v@)
                    &&& final(self).sound()
                    &&& final(self).remaining() == old(self).remaining().skip(1)
                },
                Some(Err(_)) => !old(self).source().reliable(),
                None => {
                    &&& old(self).remaining().len() == 0
                    &&& final(self).sound()
                    &&& final(self).remaining().len() == 0
                },
            },
    {
        if self.failed {
            return None;
        }
        let ghost begin = *self;
        let ghost good = self.sound();
        loop
            invariant
                self.wf(),
                begin == *old(self),
                !begin.failed,
                self.src == begin.src,
                !self.failed,
                self.stop() == begin.stop(),
                self.budget < begin.budget || (self.budget == begin.budget && self.here_left()
                    == begin.here_left()),
                good == begin.sound(),
                good ==> self.sound() && self.ahead() == begin.ahead(),
            decreases self.budget,
        {
            if self.leaf_idx >= self.leaf.len() {
                match self.advance_leaf() {
                    Ok(true) => {
                        continue;
                    },
                    Ok(false) => {
                        return None;
                    },
                    Err(e) => {
                        self.failed = true;
                        return Some(Err(e));
                    },
                }
            }
            let key = copy_vec(self.leaf[self.leaf_idx].0.as_slice());
            let ghost i = self.leaf_idx as int;
            let ghost here = self.here@;
            proof {
                if good {
                    assert(leaf_view(self.leaf@).len() == self.leaf@.len());
                    assert(entry_cells(here).len() == here.len());
                    assert(leaf_view(self.leaf@)[i] == entry_cells(here)[i]);
                    assert(self.ahead().len() > 0);
                    assert(self.ahead()[0] == entry_items(here)[i]);
                    assert(key@ == here[i].0);
                }
            }
            if let Some(end) = &self.end {
                match order_bytes(key.as_slice(), end.as_slice()) {
                    Order::Less => {},
                    _ => {
                        proof {
                            lemma_lex_facts2(key@, end@);
                            lemma_lex_irrefl(key@);
                        }
                        return None;
                    },
                }
            }
            let ghost before = *self;
            let r = read_value(self.src, &self.leaf[self.leaf_idx].1);
            self.leaf_idx = self.leaf_idx + 1;
            proof {
                if good {
                    assert(leaf_view(self.leaf@).len() == entry_cells(here).len());
                    assert(here[i].1.holds(self.src.pages(), self.src.size()));
                    assert(self.ahead() =~= before.ahead().subrange(1, before.ahead().len() as int));
                    let s = begin.remaining();
                    assert(s == seq![before.ahead()[0]] + until(self.ahead(), self.stop()));
                    assert(s.skip(1) =~= self.remaining());
                }
            }
            return match r {
                Ok(value) => Some(Ok((key, value))),
                Err(e) => {
                    self.failed = true;
                    Some(Err(e))
                },
            };
        }
    }
}

pub open spec fn slice_opt(s: Option<&[u8]>) -> Option<Seq<u8>> {
    match s {
        Some(b) => Some(b@),
        None => None,
    }
}

} // verus!
