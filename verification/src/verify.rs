//! Index consistency checking.
//!
//! Rebuilds the expected entry set of every secondary index from the table
//! rows and compares it, byte for byte, against what is actually stored.
//! Anything missing, anything extra, anything with a non-empty value is a
//! failure.

use vstd::prelude::*;

use crate::ast::BinaryOp;
use crate::catalog::{table_of, tables_at, tables_prefix, Col, Tab, Table};
use crate::encoding::vals;
use crate::exec_error::{ExecError, Fail};
use crate::order::{lex_lt, order_bytes, Order};
use crate::plan::Path;
use crate::query::{full_rows, hits, reached, scan_table, Fetched, Hit};
use crate::rows::{entry_at, index_entry_key, object_prefix, pk_of, range_at, row_pk};
use crate::scan::{item_keys, Item};
use crate::session::Session;
use crate::source::{items, listing, Source};
use crate::storage::Storage;
use crate::store::Bytes;
use crate::strings::{decimal, hex, join2, join3, join_all, joined, texts, to_hex, u64_text};
use crate::node::sorted;

verus! {

/// Whether a list has a key with that value.
pub open spec fn has_item(s: Seq<Item>, x: Item) -> bool {
    exists|i: int| 0 <= i < s.len() && #[trigger] s[i] == x
}

/// Whether a list has a key.
pub open spec fn holds_key(s: Seq<Item>, k: Seq<u8>) -> bool {
    exists|i: int| 0 <= i < s.len() && (#[trigger] s[i]).0 == k
}

/// What is stored is what is expected: nothing missing, nothing different,
/// nothing stray.
pub open spec fn agrees(actual: Seq<Item>, expected: Seq<Item>) -> bool {
    &&& forall|i: int| 0 <= i < expected.len() ==> has_item(actual, #[trigger] expected[i])
    &&& forall|i: int|
        0 <= i < actual.len() ==> holds_key(expected, (#[trigger] actual[i]).0)
}

/// The index entries some rows ask for.
pub open spec fn entries_for(cs: Seq<Col>, pos: int, id: u64, h: Seq<Hit>) -> Seq<Item> {
    Seq::new(
        h.len(),
        |i: int| (entry_at(id, h[i].1[pos], pk_of(cs, h[i].1)), Seq::<u8>::empty()),
    )
}

/// Whether the index of one column, if it has one, is as its rows ask for.
pub open spec fn column_indexed(m: Bytes, t: Tab, pos: int, h: Seq<Hit>) -> bool {
    t.columns[pos].index_id matches Some(id) ==> agrees(
        listing(m, range_at(id)),
        entries_for(t.columns, pos, id, h),
    )
}

/// How reports name the index of a column.
pub open spec fn index_place(t: Tab, pos: int) -> Seq<char> {
    "index "@ + t.name + "."@ + t.columns[pos].name
}

/// The problems with the indexes of the first `n` columns of a table.
pub open spec fn table_problems(m: Bytes, t: Tab, n: int, h: Seq<Hit>) -> Seq<Seq<char>>
    decreases n,
{
    if n <= 0 {
        Seq::empty()
    } else {
        table_problems(m, t, n - 1, h) + (match t.columns[n - 1].index_id {
            Some(id) => compared(
                index_place(t, n - 1),
                true,
                listing(m, range_at(id)),
                in_order(entries_for(t.columns, n - 1, id, h)),
            ),
            None => Seq::empty(),
        })
    }
}

/// Whether a table definition and all its rows can be read.
pub open spec fn table_readable(m: Bytes, raw: Seq<u8>) -> bool {
    table_of(raw) matches Some(t) && reached(m, t, Path::SeqScan) is Ok
}

/// The problems with the indexes of the first `n` tables.
pub open spec fn all_problems(m: Bytes, raw: Seq<Item>, n: int) -> Seq<Seq<char>>
    decreases n,
{
    if n <= 0 {
        Seq::empty()
    } else {
        let t = table_of(raw[n - 1].1)->0;
        all_problems(m, raw, n - 1) + table_problems(
            m,
            t,
            t.columns.len() as int,
            reached(m, t, Path::SeqScan)->Ok_0,
        )
    }
}

/// Whether every table definition and every row can be read.
pub open spec fn all_readable(m: Bytes, schema: Bytes) -> bool {
    let raw = listing(schema, tables_at());
    forall|i: int| 0 <= i < raw.len() ==> table_readable(m, (#[trigger] raw[i]).1)
}

/// The problems with the indexes of every table.
pub open spec fn index_problems(m: Bytes, schema: Bytes) -> Seq<Seq<char>> {
    let raw = listing(schema, tables_at());
    all_problems(m, raw, raw.len() as int)
}

/// Whether the rows of a table can be read and every index of it is as they
/// ask for.
pub open spec fn table_indexed(m: Bytes, t: Tab) -> bool {
    match reached(m, t, Path::SeqScan) {
        Ok(h) => forall|pos: int|
            0 <= pos < t.columns.len() ==> #[trigger] column_indexed(m, t, pos, h),
        Err(_) => false,
    }
}

/// Whether every table definition can be read and every index is as its
/// rows ask for.
pub open spec fn all_indexed(m: Bytes, schema: Bytes) -> bool {
    let raw = listing(schema, tables_at());
    forall|i: int|
        0 <= i < raw.len() ==> table_of((#[trigger] raw[i]).1) is Some && table_indexed(
            m,
            table_of(raw[i].1)->0,
        )
}

/// Keys in order, some perhaps more than once.
pub open spec fn in_line(ks: Seq<Seq<u8>>) -> bool {
    forall|i: int, j: int|
        0 <= i < j < ks.len() ==> lex_lt(#[trigger] ks[i], #[trigger] ks[j]) || ks[i] == ks[j]
}

/// Where a key stands in a list in order: at the index, or else before it.
fn find_key(list: &Vec<(Vec<u8>, Vec<u8>)>, key: &[u8]) -> (r: (bool, usize))
    ensures
        r.1 <= list@.len(),
        r.0 ==> r.1 < list@.len() && list@[r.1 as int].0@ == key@,
        in_line(item_keys(items(list@))) && !r.0 ==> {
            &&& !holds_key(items(list@), key@)
            &&& forall|i: int| 0 <= i < r.1 ==> lex_lt((#[trigger] list@[i]).0@, key@)
            &&& forall|i: int| r.1 <= i < list@.len() ==> lex_lt(key@, (#[trigger] list@[i]).0@)
        },
{
    let mut lo: usize = 0;
    let mut hi: usize = list.len();
    let ghost ks = item_keys(items(list@));
    let ghost neat = in_line(ks);
    while lo < hi
        invariant
            lo <= hi <= list@.len(),
            ks == item_keys(items(list@)),
            neat == in_line(ks),
            neat ==> forall|i: int| 0 <= i < lo ==> lex_lt(#[trigger] ks[i], key@),
            neat ==> forall|i: int| hi <= i < ks.len() ==> lex_lt(key@, #[trigger] ks[i]),
        decreases hi - lo,
    {
        let mid: usize = lo + (hi - lo) / 2;
        proof {
            crate::order::lemma_lex_facts();
            assert(ks[mid as int] == list@[mid as int].0@);
        }
        match order_bytes(list[mid].0.as_slice(), key) {
            Order::Equal => return (true, mid),
            Order::Less => {
                proof {
                    if neat {
                        assert forall|i: int| 0 <= i < mid + 1 implies lex_lt(
                            #[trigger] ks[i],
                            key@,
                        ) by {
                            if i < mid {
                                assert(lex_lt(ks[i], ks[mid as int]) || ks[i] == ks[mid as int]);
                            }
                        }
                    }
                }
                lo = mid + 1;
            },
            Order::Greater => {
                proof {
                    if neat {
                        assert forall|i: int| mid <= i < ks.len() implies lex_lt(
                            key@,
                            #[trigger] ks[i],
                        ) by {
                            if i > mid {
                                assert(lex_lt(ks[mid as int], ks[i]) || ks[mid as int] == ks[i]);
                            }
                        }
                    }
                }
                hi = mid;
            },
        }
    }
    proof {
        if neat {
            crate::order::lemma_lex_facts();
            assert forall|i: int| 0 <= i < lo implies lex_lt((#[trigger] list@[i]).0@, key@) by {
                assert(ks[i] == list@[i].0@);
            }
            assert forall|i: int| lo <= i < list@.len() implies lex_lt(
                key@,
                (#[trigger] list@[i]).0@,
            ) by {
                assert(ks[i] == list@[i].0@);
            }
            if holds_key(items(list@), key@) {
                let i = choose|i: int|
                    0 <= i < items(list@).len() && (#[trigger] items(list@)[i]).0 == key@;
                assert(ks[i] == key@);
            }
        }
    }
    (false, lo)
}

/// An entry put in its place among entries in order of their keys, unless it
/// stands there already. Of one key, the later entry comes last.
pub open spec fn placed(s: Seq<Item>, x: Item) -> Seq<Item>
    decreases s.len(),
{
    if s.len() == 0 {
        seq![x]
    } else if s.last() == x {
        s
    } else if lex_lt(x.0, s.last().0) {
        placed(s.drop_last(), x).push(s.last())
    } else {
        s.push(x)
    }
}

/// Some entries in order of their keys.
pub open spec fn in_order(s: Seq<Item>) -> Seq<Item>
    decreases s.len(),
{
    if s.len() == 0 {
        s
    } else {
        placed(in_order(s.drop_last()), s.last())
    }
}

/// Bytes as a list of two-digit hex numbers.
pub open spec fn hex_shown(b: Seq<u8>) -> Seq<char> {
    "["@ + joined(Seq::new(b.len(), |i: int| hex(seq![b[i]])), ", "@) + "]"@
}

fn hex_list(bytes: &[u8]) -> (r: String)
    ensures
        r@ == hex_shown(bytes@),
{
    let mut parts: Vec<String> = Vec::new();
    let len: usize = bytes.len();
    for i in 0..len
        invariant
            len == bytes@.len(),
            parts@.len() == i,
            forall|k: int| 0 <= k < i ==> (#[trigger] parts@[k])@ == hex(seq![bytes@[k]]),
    {
        let one: Vec<u8> = vec![bytes[i]];
        parts.push(to_hex(one.as_slice()));
        proof {
            assert(one@ =~= seq![bytes@[i as int]]);
        }
    }
    proof {
        assert(texts(parts@) =~= Seq::new(bytes@.len(), |i: int| hex(seq![bytes@[i]])));
    }
    join3("[", join_all(&parts, ", ").as_str(), "]")
}

/// Put an entry in its place.
fn place_item(list: &mut Vec<(Vec<u8>, Vec<u8>)>, key: &[u8], value: &[u8])
    requires
        in_line(item_keys(items(old(list)@))),
    ensures
        items(final(list)@) == placed(items(old(list)@), (key@, value@)),
{
    let ghost s = items(list@);
    let ghost x = (key@, value@);
    let own = (crate::bytes::copy_vec(key), crate::bytes::copy_vec(value));
    let (found, spot) = find_key(list, key);
    if !found {
        list.insert(spot, own);
        proof {
            assert forall|i: int| 0 <= i < spot implies lex_lt((#[trigger] s[i]).0, key@) by {
                assert(s[i].0 == old(list)@[i].0@);
            }
            assert forall|i: int| spot <= i < s.len() implies lex_lt(key@, (#[trigger] s[i]).0) by {
                assert(s[i].0 == old(list)@[i].0@);
            }
            lemma_placed_at(s, x, spot as int);
            assert(items(list@) =~= s.insert(spot as int, x));
        }
        return;
    }
    // walk to the end of the entries of this key
    let mut at: usize = list.len();
    proof {
        assert(s.take(at as int) =~= s);
        assert(s.skip(at as int) =~= Seq::<Item>::empty());
        assert(placed(s.take(at as int), x) + s.skip(at as int) =~= placed(s, x));
    }
    while at > 0 && order_bytes(list[at - 1].0.as_slice(), key) == Order::Greater
        invariant
            at <= list@.len(),
            list@ == old(list)@,
            s == items(list@),
            x == (key@, value@),
            placed(s, x) == placed(s.take(at as int), x) + s.skip(at as int),
        decreases at,
    {
        proof {
            crate::order::lemma_lex_facts();
            let t = s.take(at as int);
            assert(t.last().0 == list@[at - 1].0@);
            assert(t.drop_last() =~= s.take(at - 1));
            assert(lex_lt(x.0, t.last().0));
            assert(placed(t, x) == placed(t.drop_last(), x).push(t.last()));
            assert(placed(t, x) + s.skip(at as int) =~= placed(s.take(at - 1), x) + s.skip(at - 1));
        }
        at = at - 1;
    }
    let ghost t = s.take(at as int);
    if at > 0 && crate::bytes::same_bytes(list[at - 1].0.as_slice(), key)
        && crate::bytes::same_bytes(list[at - 1].1.as_slice(), value) {
        proof {
            assert(t.last() == (list@[at - 1].0@, list@[at - 1].1@));
            assert(t.last() == x);
            assert(placed(t, x) == t);
            assert(t + s.skip(at as int) =~= s);
        }
        return;
    }
    list.insert(at, own);
    proof {
        crate::order::lemma_lex_facts();
        if at > 0 {
            assert(t.last() == (old(list)@[at - 1].0@, old(list)@[at - 1].1@));
            assert(!lex_lt(x.0, t.last().0));
            assert(t.last() != x);
        }
        assert(placed(t, x) =~= t.push(x));
        assert(items(list@) =~= t.push(x) + s.skip(at as int));
    }
}

proof fn lemma_placed_at(s: Seq<Item>, x: Item, at: int)
    requires
        0 <= at <= s.len(),
        forall|i: int| 0 <= i < at ==> lex_lt((#[trigger] s[i]).0, x.0),
        forall|i: int| at <= i < s.len() ==> lex_lt(x.0, (#[trigger] s[i]).0),
    ensures
        placed(s, x) == s.insert(at, x),
    decreases s.len(),
{
    crate::order::lemma_lex_facts();
    if s.len() == 0 {
        assert(s.insert(at, x) =~= seq![x]);
    } else if at < s.len() {
        let t = s.drop_last();
        lemma_placed_at(t, x, at);
        assert(lex_lt(x.0, s.last().0));
        assert(t.insert(at, x).push(s.last()) =~= s.insert(at, x));
    } else {
        assert(lex_lt(s.last().0, x.0));
        assert(s.push(x) =~= s.insert(at, x));
    }
}

/// A placed entry keeps the order and adds nothing but itself.
proof fn lemma_placed(s: Seq<Item>, x: Item)
    requires
        in_line(item_keys(s)),
    ensures
        in_line(item_keys(placed(s, x))),
        forall|y: Item| #[trigger] has_item(placed(s, x), y) <==> has_item(s, y) || y == x,
        s.len() <= placed(s, x).len() <= s.len() + 1,
        placed(s, x).len() > 0,
        placed(s, x).last() == x || (s.len() > 0 && placed(s, x).last() == s.last()),
    decreases s.len(),
{
    crate::order::lemma_lex_facts();
    let p = placed(s, x);
    let ks = item_keys(s);
    let kp = item_keys(p);
    if s.len() == 0 {
        assert(p[0] == x);
        assert forall|y: Item| #[trigger] has_item(p, y) <==> has_item(s, y) || y == x by {
            if y == x {
                assert(p[0] == y);
            }
        }
    } else if s.last() == x {
        assert forall|y: Item| #[trigger] has_item(p, y) <==> has_item(s, y) || y == x by {
            if y == x {
                assert(s[s.len() - 1] == y);
            }
        }
    } else if lex_lt(x.0, s.last().0) {
        let t = s.drop_last();
        assert(in_line(item_keys(t))) by {
            let kt = item_keys(t);
            assert forall|i: int, j: int| 0 <= i < j < kt.len() implies lex_lt(
                #[trigger] kt[i],
                #[trigger] kt[j],
            ) || kt[i] == kt[j] by {
                assert(kt[i] == ks[i] && kt[j] == ks[j]);
            }
        }
        lemma_placed(t, x);
        let q = placed(t, x);
        let kq = item_keys(q);
        let n = q.len() as int;
        assert(p == q.push(s.last()));
        lemma_has_push(q, s.last());
        assert(t.push(s.last()) =~= s);
        lemma_has_push(t, s.last());
        assert forall|y: Item| #[trigger] has_item(p, y) <==> has_item(s, y) || y == x by {
            assert(has_item(q, y) <==> has_item(t, y) || y == x);
        }
        assert forall|i: int, j: int| 0 <= i < j < kp.len() implies lex_lt(
            #[trigger] kp[i],
            #[trigger] kp[j],
        ) || kp[i] == kp[j] by {
            assert(kp[i] == kq[i]);
            if j < n {
                assert(kp[j] == kq[j]);
            } else {
                assert(kp[j] == s.last().0);
                assert(q[i] == p[i]);
                assert(has_item(q, q[i]));
                if q[i] != x {
                    assert(has_item(t, q[i]));
                    let m = choose|m: int| 0 <= m < t.len() && #[trigger] t[m] == q[i];
                    assert(ks[m] == q[i].0 && ks[s.len() - 1] == s.last().0);
                    assert(lex_lt(ks[m], ks[s.len() - 1]) || ks[m] == ks[s.len() - 1]);
                }
            }
        }
    } else {
        lemma_has_push(s, x);
        crate::order::lemma_lex_total(x.0, s.last().0);
        assert forall|i: int, j: int| 0 <= i < j < kp.len() implies lex_lt(
            #[trigger] kp[i],
            #[trigger] kp[j],
        ) || kp[i] == kp[j] by {
            assert(kp[i] == ks[i]);
            if j < s.len() {
                assert(kp[j] == ks[j]);
            } else {
                assert(kp[j] == x.0);
                assert(ks[s.len() - 1] == s.last().0);
                if i < s.len() - 1 {
                    assert(lex_lt(ks[i], ks[s.len() - 1]) || ks[i] == ks[s.len() - 1]);
                }
            }
        }
    }
}

proof fn lemma_has_push(s: Seq<Item>, x: Item)
    ensures
        forall|y: Item| #[trigger] has_item(s.push(x), y) <==> has_item(s, y) || y == x,
{
    let p = s.push(x);
    assert forall|y: Item| #[trigger] has_item(p, y) <==> has_item(s, y) || y == x by {
        if has_item(p, y) {
            let i = choose|i: int| 0 <= i < p.len() && #[trigger] p[i] == y;
            if i < s.len() {
                assert(s[i] == y);
            }
        }
        if has_item(s, y) {
            let i = choose|i: int| 0 <= i < s.len() && #[trigger] s[i] == y;
            assert(p[i] == y);
        }
        if y == x {
            assert(p[s.len() as int] == y);
        }
    }
}

/// Ordering entries loses none and invents none.
pub proof fn lemma_in_order(s: Seq<Item>)
    ensures
        in_line(item_keys(in_order(s))),
        forall|y: Item| #[trigger] has_item(in_order(s), y) <==> has_item(s, y),
    decreases s.len(),
{
    if s.len() > 0 {
        let t = s.drop_last();
        lemma_in_order(t);
        lemma_placed(in_order(t), s.last());
        lemma_has_push(t, s.last());
        assert(t.push(s.last()) =~= s);
        assert forall|y: Item| #[trigger] has_item(in_order(s), y) <==> has_item(s, y) by {
            assert(has_item(in_order(t), y) <==> has_item(t, y));
        }
    }
}

/// Some entries in order of their keys.
pub(crate) fn order_items(list: &Vec<(Vec<u8>, Vec<u8>)>) -> (r: Vec<(Vec<u8>, Vec<u8>)>)
    ensures
        items(r@) == in_order(items(list@)),
{
    let mut out: Vec<(Vec<u8>, Vec<u8>)> = Vec::new();
    let ghost s = items(list@);
    let len: usize = list.len();
    proof {
        assert(s.take(0) =~= Seq::<Item>::empty());
        assert(items(out@) =~= Seq::<Item>::empty());
    }
    for i in 0..len
        invariant
            len == list@.len(),
            s == items(list@),
            items(out@) == in_order(s.take(i as int)),
    {
        proof {
            lemma_in_order(s.take(i as int));
            let t = s.take(i + 1);
            assert(t.drop_last() =~= s.take(i as int));
            assert(t.last() == (list@[i as int].0@, list@[i as int].1@));
        }
        place_item(&mut out, list[i].0.as_slice(), list[i].1.as_slice());
    }
    proof {
        assert(s.take(len as int) =~= s);
    }
    out
}

/// What a list holds under a key.
pub open spec fn value_in(s: Seq<Item>, k: Seq<u8>) -> Seq<u8> {
    s[choose|i: int| 0 <= i < s.len() && (#[trigger] s[i]).0 == k].1
}

/// The lines about stored entries that should carry no value.
pub open spec fn value_lines(place: Seq<char>, a: Seq<Item>) -> Seq<Seq<char>>
    decreases a.len(),
{
    if a.len() == 0 {
        Seq::empty()
    } else if a.last().1.len() > 0 {
        value_lines(place, a.drop_last()).push(place + ": entry with a non-empty value"@)
    } else {
        value_lines(place, a.drop_last())
    }
}

/// The line about an expected entry that is not stored.
pub open spec fn missing_line(place: Seq<char>, bare: bool, k: Seq<u8>) -> Seq<char> {
    place + (if bare {
        ": missing entry for "@
    } else {
        ": missing entry "@
    }) + hex_shown(k)
}

/// The line about an entry stored with another value.
pub open spec fn differing_line(place: Seq<char>, k: Seq<u8>, got: Seq<u8>, want: Seq<u8>) -> Seq<
    char,
> {
    place + ": entry "@ + hex_shown(k) + (" holds "@ + hex_shown(got) + ", expected "@) + hex_shown(
        want,
    )
}

/// The lines about expected entries that are not stored as they should be.
pub open spec fn lack_lines(place: Seq<char>, bare: bool, a: Seq<Item>, e: Seq<Item>) -> Seq<
    Seq<char>,
>
    decreases e.len(),
{
    if e.len() == 0 {
        Seq::empty()
    } else {
        let rest = lack_lines(place, bare, a, e.drop_last());
        let x = e.last();
        if !holds_key(a, x.0) {
            rest.push(missing_line(place, bare, x.0))
        } else if !bare && value_in(a, x.0) != x.1 {
            rest.push(differing_line(place, x.0, value_in(a, x.0), x.1))
        } else {
            rest
        }
    }
}

/// The lines about stored entries that nothing asks for.
pub open spec fn stray_lines(place: Seq<char>, bare: bool, a: Seq<Item>, e: Seq<Item>) -> Seq<
    Seq<char>,
>
    decreases a.len(),
{
    if a.len() == 0 {
        Seq::empty()
    } else if holds_key(e, a.last().0) {
        stray_lines(place, bare, a.drop_last(), e)
    } else {
        stray_lines(place, bare, a.drop_last(), e).push(
            place + ": stray entry "@ + hex_shown(a.last().0) + (if bare {
                " with no matching row"@
            } else {
                ""@
            }),
        )
    }
}

/// A line for every difference between what is stored and what is expected.
/// Entries are `bare` where none is expected to carry a value.
pub open spec fn compared(place: Seq<char>, bare: bool, a: Seq<Item>, e: Seq<Item>) -> Seq<
    Seq<char>,
> {
    (if bare {
        value_lines(place, a)
    } else {
        Seq::empty()
    }) + lack_lines(place, bare, a, e) + stray_lines(place, bare, a, e)
}

/// The report of some problems.
pub open spec fn report(lines: Seq<Seq<char>>) -> Seq<char> {
    "index verification found "@ + decimal(lines.len()) + " problems:\n"@ + joined(lines, "\n"@)
}

/// Whether a list has what is expected, going by the key alone where
/// entries carry no value.
spec fn met(s: Seq<Item>, x: Item, bare: bool) -> bool {
    if bare {
        holds_key(s, x.0)
    } else {
        has_item(s, x)
    }
}

spec fn no_values(s: Seq<Item>) -> bool {
    forall|i: int| 0 <= i < s.len() ==> (#[trigger] s[i]).1.len() == 0
}

proof fn lemma_agrees_parts(a: Seq<Item>, e: Seq<Item>, bare: bool)
    requires
        sorted(item_keys(a)),
        bare ==> no_values(e),
    ensures
        agrees(a, e) <==> {
            &&& bare ==> no_values(a)
            &&& forall|k: int| 0 <= k < e.len() ==> met(a, #[trigger] e[k], bare)
            &&& forall|k: int| 0 <= k < a.len() ==> holds_key(e, (#[trigger] a[k]).0)
        },
{
    if agrees(a, e) {
        assert forall|k: int| 0 <= k < e.len() implies met(a, #[trigger] e[k], bare) by {
            assert(has_item(a, e[k]));
            let m = choose|m: int| 0 <= m < a.len() && #[trigger] a[m] == e[k];
            assert(a[m].0 == e[k].0);
        }
        if bare {
            assert forall|i: int| 0 <= i < a.len() implies (#[trigger] a[i]).1.len() == 0 by {
                assert(holds_key(e, a[i].0));
                let j = choose|j: int| 0 <= j < e.len() && (#[trigger] e[j]).0 == a[i].0;
                assert(has_item(a, e[j]));
                let m = choose|m: int| 0 <= m < a.len() && #[trigger] a[m] == e[j];
                lemma_keys_apart(a, i, m);
            }
        }
    }
    if bare && no_values(a) {
        assert forall|k: int|
            0 <= k < e.len() && met(a, #[trigger] e[k], bare) implies has_item(a, e[k]) by {
            let m = choose|m: int| 0 <= m < a.len() && (#[trigger] a[m]).0 == e[k].0;
            assert(a[m].1 =~= e[k].1);
            assert(a[m] == e[k]);
        }
    }
}

/// No lines where and only where the two agree.
pub proof fn lemma_compared(place: Seq<char>, bare: bool, a: Seq<Item>, e: Seq<Item>)
    requires
        sorted(item_keys(a)),
        bare ==> forall|i: int| 0 <= i < e.len() ==> (#[trigger] e[i]).1.len() == 0,
    ensures
        compared(place, bare, a, e).len() == 0 <==> agrees(a, e),
{
    lemma_agrees_parts(a, e, bare);
    lemma_value_lines(place, a);
    lemma_lack_lines(place, bare, a, e);
    lemma_stray_lines(place, bare, a, e);
}

proof fn lemma_value_lines(place: Seq<char>, a: Seq<Item>)
    ensures
        value_lines(place, a).len() == 0 <==> no_values(a),
    decreases a.len(),
{
    if a.len() > 0 {
        let t = a.drop_last();
        lemma_value_lines(place, t);
        if no_values(a) {
            assert(a[a.len() - 1].1.len() == 0);
            assert forall|i: int| 0 <= i < t.len() implies (#[trigger] t[i]).1.len() == 0 by {
                assert(t[i] == a[i]);
            }
        }
        if no_values(t) && a.last().1.len() == 0 {
            assert forall|i: int| 0 <= i < a.len() implies (#[trigger] a[i]).1.len() == 0 by {
                if i < t.len() {
                    assert(t[i] == a[i]);
                }
            }
        }
    }
}

proof fn lemma_lack_lines(place: Seq<char>, bare: bool, a: Seq<Item>, e: Seq<Item>)
    requires
        sorted(item_keys(a)),
    ensures
        lack_lines(place, bare, a, e).len() == 0 <==> forall|k: int|
            0 <= k < e.len() ==> met(a, #[trigger] e[k], bare),
    decreases e.len(),
{
    if e.len() > 0 {
        let t = e.drop_last();
        let x = e.last();
        lemma_lack_lines(place, bare, a, t);
        assert(met(a, x, bare) <==> holds_key(a, x.0) && (bare || value_in(a, x.0) == x.1)) by {
            if holds_key(a, x.0) {
                let i = choose|i: int| 0 <= i < a.len() && (#[trigger] a[i]).0 == x.0;
                if has_item(a, x) {
                    let j = choose|j: int| 0 <= j < a.len() && #[trigger] a[j] == x;
                    lemma_keys_apart(a, i, j);
                }
                if a[i].1 == x.1 {
                    assert(a[i] == x);
                    assert(has_item(a, x));
                }
            }
            if has_item(a, x) {
                let j = choose|j: int| 0 <= j < a.len() && #[trigger] a[j] == x;
                assert(a[j].0 == x.0);
            }
        }
        if forall|k: int| 0 <= k < e.len() ==> met(a, #[trigger] e[k], bare) {
            assert(met(a, e[e.len() - 1], bare));
            assert forall|k: int| 0 <= k < t.len() implies met(a, #[trigger] t[k], bare) by {
                assert(t[k] == e[k]);
            }
        }
        if met(a, x, bare) && (forall|k: int| 0 <= k < t.len() ==> met(a, #[trigger] t[k], bare)) {
            assert forall|k: int| 0 <= k < e.len() implies met(a, #[trigger] e[k], bare) by {
                if k < t.len() {
                    assert(t[k] == e[k]);
                }
            }
        }
    }
}

proof fn lemma_stray_lines(place: Seq<char>, bare: bool, a: Seq<Item>, e: Seq<Item>)
    ensures
        stray_lines(place, bare, a, e).len() == 0 <==> forall|k: int|
            0 <= k < a.len() ==> holds_key(e, (#[trigger] a[k]).0),
    decreases a.len(),
{
    if a.len() > 0 {
        let t = a.drop_last();
        lemma_stray_lines(place, bare, t, e);
        if forall|k: int| 0 <= k < a.len() ==> holds_key(e, (#[trigger] a[k]).0) {
            assert(holds_key(e, a[a.len() - 1].0));
            assert forall|k: int| 0 <= k < t.len() implies holds_key(e, (#[trigger] t[k]).0) by {
                assert(t[k] == a[k]);
            }
        }
        if holds_key(e, a.last().0) && (forall|k: int|
            0 <= k < t.len() ==> holds_key(e, (#[trigger] t[k]).0)) {
            assert forall|k: int| 0 <= k < a.len() implies holds_key(e, (#[trigger] a[k]).0) by {
                if k < t.len() {
                    assert(t[k] == a[k]);
                }
            }
        }
    }
}

/// Sameness of entries does not depend on their order.
pub proof fn lemma_agrees_in_order(a: Seq<Item>, e: Seq<Item>)
    ensures
        agrees(a, in_order(e)) <==> agrees(a, e),
{
    lemma_in_order(e);
    lemma_agrees_same(a, e, in_order(e));
    lemma_agrees_same(a, in_order(e), e);
}

proof fn lemma_agrees_same(a: Seq<Item>, e: Seq<Item>, f: Seq<Item>)
    requires
        forall|y: Item| #[trigger] has_item(f, y) <==> has_item(e, y),
    ensures
        agrees(a, e) ==> agrees(a, f),
{
    if agrees(a, e) {
        assert forall|i: int| 0 <= i < f.len() implies has_item(a, #[trigger] f[i]) by {
            assert(has_item(f, f[i]));
            assert(has_item(e, f[i]));
            let j = choose|j: int| 0 <= j < e.len() && #[trigger] e[j] == f[i];
            assert(has_item(a, e[j]));
        }
        assert forall|i: int| 0 <= i < a.len() implies holds_key(f, (#[trigger] a[i]).0) by {
            assert(holds_key(e, a[i].0));
            let j = choose|j: int| 0 <= j < e.len() && (#[trigger] e[j]).0 == a[i].0;
            assert(has_item(e, e[j]));
            assert(has_item(f, e[j]));
            let k = choose|k: int| 0 <= k < f.len() && #[trigger] f[k] == e[j];
            assert(f[k].0 == a[i].0);
        }
    }
}

proof fn lemma_texts_push(s: Seq<String>, x: String)
    ensures
        texts(s.push(x)) == texts(s).push(x@),
{
    assert(texts(s.push(x)) =~= texts(s).push(x@));
}

/// Compare what is stored to what is expected. Adds a line for every
/// difference. Entries are `bare` where none is expected to carry a value.
#[verifier::rlimit(40)]
pub(crate) fn compare_entries(
    place: &str,
    bare: bool,
    actual: &Vec<(Vec<u8>, Vec<u8>)>,
    expected: &Vec<(Vec<u8>, Vec<u8>)>,
    problems: &mut Vec<String>,
)
    ensures
        sorted(item_keys(items(actual@))) && in_line(item_keys(items(expected@))) ==> texts(
            final(problems)@,
        ) == texts(old(problems)@) + compared(place@, bare, items(actual@), items(expected@)),
{
    let ghost a = items(actual@);
    let ghost e = items(expected@);
    let ghost neat = sorted(item_keys(a)) && in_line(item_keys(e));
    let ghost start = texts(problems@);
    let len: usize = expected.len();
    let count: usize = actual.len();
    proof {
        assert(a.take(0) =~= Seq::<Item>::empty());
        assert(e.take(0) =~= Seq::<Item>::empty());
        assert(start + Seq::<Seq<char>>::empty() =~= start);
        assert(a.take(count as int) =~= a);
        assert(e.take(len as int) =~= e);
        if sorted(item_keys(a)) {
            assert(in_line(item_keys(a)));
        }
    }
    if bare {
        for i in 0..count
            invariant
                count == actual@.len(),
                a == items(actual@),
                texts(problems@) == start + value_lines(place@, a.take(i as int)),
        {
            proof {
                let t = a.take(i + 1);
                assert(t.drop_last() =~= a.take(i as int));
                assert(t.last() == (actual@[i as int].0@, actual@[i as int].1@));
            }
            if actual[i].1.len() > 0 {
                let ghost had = problems@;
                problems.push(join2(place, ": entry with a non-empty value"));
                proof {
                    lemma_texts_push(had, problems@.last());
                    assert(texts(problems@) =~= start + value_lines(place@, a.take(i + 1)));
                }
            }
        }
    }
    let ghost one = start + (if bare {
        value_lines(place@, a)
    } else {
        Seq::empty()
    });
    proof {
        assert(one + Seq::<Seq<char>>::empty() =~= one);
    }
    for i in 0..len
        invariant
            len == expected@.len(),
            a == items(actual@),
            e == items(expected@),
            neat == (sorted(item_keys(a)) && in_line(item_keys(e))),
            neat ==> in_line(item_keys(a)),
            neat ==> texts(problems@) == one + lack_lines(place@, bare, a, e.take(i as int)),
    {
        let ghost had = problems@;
        let ghost t = e.take(i + 1);
        let ghost x = e[i as int];
        proof {
            assert(t.drop_last() =~= e.take(i as int));
            assert(t.last() == x);
            assert(x == (expected@[i as int].0@, expected@[i as int].1@));
        }
        let key = expected[i].0.as_slice();
        let (found, at) = find_key(actual, key);
        if !found {
            let said = if bare {
                ": missing entry for "
            } else {
                ": missing entry "
            };
            problems.push(join3(place, said, hex_list(key).as_str()));
            proof {
                if neat {
                    lemma_texts_push(had, problems@.last());
                    assert(texts(problems@) =~= one + lack_lines(place@, bare, a, t));
                }
            }
        } else {
            let got = actual[at].1.as_slice();
            let want = expected[i].1.as_slice();
            proof {
                assert(a[at as int] == (actual@[at as int].0@, actual@[at as int].1@));
                assert(holds_key(a, x.0));
                if neat {
                    let j = choose|j: int| 0 <= j < a.len() && (#[trigger] a[j]).0 == x.0;
                    lemma_keys_apart(a, j, at as int);
                    assert(value_in(a, x.0) == got@);
                }
            }
            if !bare && !crate::bytes::same_bytes(got, want) {
                let head = join3(place, ": entry ", hex_list(key).as_str());
                let held = join3(" holds ", hex_list(got).as_str(), ", expected ");
                problems.push(join3(head.as_str(), held.as_str(), hex_list(want).as_str()));
                proof {
                    if neat {
                        lemma_texts_push(had, problems@.last());
                        assert(texts(problems@) =~= one + lack_lines(place@, bare, a, t));
                    }
                }
            }
        }
    }
    let ghost two = one + lack_lines(place@, bare, a, e);
    proof {
        assert(two + Seq::<Seq<char>>::empty() =~= two);
    }
    for i in 0..count
        invariant
            count == actual@.len(),
            a == items(actual@),
            e == items(expected@),
            neat == (sorted(item_keys(a)) && in_line(item_keys(e))),
            neat ==> texts(problems@) == two + stray_lines(place@, bare, a.take(i as int), e),
    {
        let ghost had = problems@;
        let ghost t = a.take(i + 1);
        proof {
            assert(t.drop_last() =~= a.take(i as int));
            assert(t.last() == (actual@[i as int].0@, actual@[i as int].1@));
        }
        let key = actual[i].0.as_slice();
        let (found, at) = find_key(expected, key);
        proof {
            if found {
                assert(e[at as int].0 == key@);
                assert(holds_key(e, key@));
            }
        }
        if !found {
            let head = join3(place, ": stray entry ", hex_list(key).as_str());
            let tail = if bare {
                " with no matching row"
            } else {
                ""
            };
            problems.push(join2(head.as_str(), tail));
            proof {
                if neat {
                    lemma_texts_push(had, problems@.last());
                    assert(texts(problems@) =~= two + stray_lines(place@, bare, t, e));
                }
            }
        }
    }
    proof {
        if neat {
            assert(texts(problems@) =~= start + compared(place@, bare, a, e));
        }
    }
}

proof fn lemma_keys_apart(s: Seq<Item>, i: int, j: int)
    requires
        sorted(item_keys(s)),
        0 <= i < s.len(),
        0 <= j < s.len(),
        s[i].0 == s[j].0,
    ensures
        i == j,
{
    crate::order::lemma_lex_facts();
    let ks = item_keys(s);
    assert(ks[i] == s[i].0 && ks[j] == s[j].0);
    if i < j {
        assert(lex_lt(ks[i], ks[j]));
    } else if j < i {
        assert(lex_lt(ks[j], ks[i]));
    }
}

/// The index entries some rows ask for.
fn expected_entries(table: &Table, pos: usize, id: u64, found: &Fetched) -> (r: Vec<
    (Vec<u8>, Vec<u8>),
>)
    requires
        pos < table@.columns.len(),
        full_rows(found@, table@.columns.len()),
    ensures
        items(r@) == entries_for(table@.columns, pos as int, id, hits(found@)),
{
    let mut out: Vec<(Vec<u8>, Vec<u8>)> = Vec::new();
    let len: usize = found.len();
    let ghost want = entries_for(table@.columns, pos as int, id, hits(found@));
    for i in 0..len
        invariant
            len == found@.len(),
            pos < table@.columns.len(),
            full_rows(found@, table@.columns.len()),
            want == entries_for(table@.columns, pos as int, id, hits(found@)),
            out@.len() == i,
            forall|k: int|
                0 <= k < i ==> ((#[trigger] out@[k]).0@, out@[k].1@) == want[k],
    {
        proof {
            assert(found@[i as int].1@.len() == table@.columns.len());
            assert(vals(found@[i as int].1@)[pos as int] == found@[i as int].1@[pos as int]@);
        }
        let row = &found[i].1;
        let pk = row_pk(table, row.as_slice());
        out.push((index_entry_key(id, &row[pos], pk.as_slice()), Vec::new()));
    }
    proof {
        assert(items(out@) =~= want);
    }
    out
}

/// Check every index of one table.
#[verifier::rlimit(30)]
fn verify_table<V: Source>(view: &V, table: &Table, problems: &mut Vec<String>) -> (r:
    core::result::Result<(), ExecError>)
    requires
        view.ready(),
    ensures
        view.whole() ==> match r {
            Ok(_) => reached(view.rows(), table@, Path::SeqScan) matches Ok(h) && texts(
                final(problems)@,
            ) == texts(old(problems)@) + table_problems(
                view.rows(),
                table@,
                table@.columns.len() as int,
                h,
            ) && (table_problems(view.rows(), table@, table@.columns.len() as int, h).len() == 0
                <==> table_indexed(view.rows(), table@)),
            Err(e) => (e.fail() is Storage && !view.steady()) || (e.fail() is Exec && reached(
                view.rows(),
                table@,
                Path::SeqScan,
            ) is Err),
        },
{
    let ghost start = texts(problems@);
    let ghost m = view.rows();
    let ghost t = table@;
    let found = match scan_table(view, table) {
        Ok(v) => v,
        Err(e) => {
            proof {
                if view.whole() && reached(m, t, Path::SeqScan) is Err {
                    crate::query::lemma_read_all_kind(
                        t.columns,
                        listing(m, range_at(t.id)),
                    );
                }
            }
            return Err(e);
        },
    };
    let ghost h = hits(found@);
    let len: usize = table.columns.len();
    proof {
        assert(start + Seq::<Seq<char>>::empty() =~= start);
    }
    for i in 0..len
        invariant
            len == table.columns@.len(),
            m == view.rows(),
            t == table@,
            h == hits(found@),
            view.ready(),
            full_rows(found@, t.columns.len()),
            start == texts(old(problems)@),
            view.whole() ==> reached(m, t, Path::SeqScan) == Ok::<Seq<Hit>, Fail>(h),
            view.whole() ==> texts(problems@) == start + table_problems(m, t, i as int, h),
            view.whole() ==> (table_problems(m, t, i as int, h).len() == 0 <==> forall|pos: int|
                0 <= pos < i ==> #[trigger] column_indexed(m, t, pos, h)),
    {
        let col = &table.columns[i];
        proof {
            assert(t.columns[i as int] == col@);
        }
        if let Some(id) = col.index_id {
            let expected = order_items(&expected_entries(table, i, id, &found));
            proof {
                lemma_in_order(entries_for(t.columns, i as int, id, h));
            }
            let actual = match view.view_scan(object_prefix(id).as_slice()) {
                Ok(v) => v,
                Err(e) => return Err(e),
            };
            let place = join2(
                join3("index ", table.name.as_str(), ".").as_str(),
                col.name.as_str(),
            );
            let ghost had = texts(problems@);
            compare_entries(place.as_str(), true, &actual, &expected, problems);
            proof {
                if view.whole() {
                    assert(place@ == index_place(t, i as int));
                    assert(texts(problems@) =~= start + table_problems(m, t, i + 1, h));
                    lemma_column_problems(m, t, i as int, id, h);
                }
            }
        } else {
            proof {
                assert(table_problems(m, t, i + 1, h) =~= table_problems(m, t, i as int, h));
                assert(column_indexed(m, t, i as int, h));
            }
        }
    }
    Ok(())
}

/// The index of one more column is as it should be where and only where it
/// gives no line.
proof fn lemma_column_problems(m: Bytes, t: Tab, pos: int, id: u64, h: Seq<Hit>)
    requires
        0 <= pos < t.columns.len(),
        t.columns[pos].index_id == Some(id),
        sorted(item_keys(listing(m, range_at(id)))),
    ensures
        compared(
            index_place(t, pos),
            true,
            listing(m, range_at(id)),
            in_order(entries_for(t.columns, pos, id, h)),
        ).len() == 0 <==> column_indexed(m, t, pos, h),
{
    let a = listing(m, range_at(id));
    let e = entries_for(t.columns, pos, id, h);
    lemma_in_order(e);
    assert forall|i: int| 0 <= i < in_order(e).len() implies (#[trigger] in_order(e)[i]).1.len()
        == 0 by {
        assert(has_item(in_order(e), in_order(e)[i]));
        assert(has_item(e, in_order(e)[i]));
        let j = choose|j: int| 0 <= j < e.len() && #[trigger] e[j] == in_order(e)[i];
        assert(e[j].1 == Seq::<u8>::empty());
    }
    lemma_compared(index_place(t, pos), true, a, in_order(e));
    lemma_agrees_in_order(a, e);
}

/// Check every index of every table of a point in time.
fn verify_all<V: Source>(view: &V) -> (r: core::result::Result<(), ExecError>)
    requires
        view.ready(),
    ensures
        view.whole() ==> match r {
            Ok(_) => all_indexed(view.rows(), view.schema()),
            Err(e) => (e.fail() is Storage && !view.steady()) || (e.fail() is Exec && !all_indexed(
                view.rows(),
                view.schema(),
            ) && (all_readable(view.rows(), view.schema()) ==> e.text() == report(
                index_problems(view.rows(), view.schema()),
            ))),
        },
{
    let ghost m = view.rows();
    let ghost raw = listing(view.schema(), tables_at());
    let mut problems: Vec<String> = Vec::new();
    let found = match view.view_catalog_scan(tables_prefix().as_slice()) {
        Ok(v) => v,
        Err(e) => return Err(e),
    };
    let len: usize = found.len();
    proof {
        assert(texts(problems@) =~= Seq::<Seq<char>>::empty());
    }
    for i in 0..len
        invariant
            len == found@.len(),
            m == view.rows(),
            raw == listing(view.schema(), tables_at()),
            view.ready(),
            view.whole() ==> items(found@) == raw,
            view.whole() ==> texts(problems@) == all_problems(m, raw, i as int),
            view.whole() ==> forall|k: int|
                0 <= k < i ==> table_readable(m, (#[trigger] raw[k]).1),
            view.whole() ==> (all_problems(m, raw, i as int).len() == 0 <==> forall|k: int|
                0 <= k < i ==> table_indexed(m, table_of((#[trigger] raw[k]).1)->0)),
    {
        proof {
            assert(items(found@)[i as int].1 == found@[i as int].1@);
            if view.whole() {
                assert(raw[i as int].1 == found@[i as int].1@);
            }
        }
        let table = match Table::deserialize(found[i].1.as_slice()) {
            Ok(t) => t,
            Err(e) => {
                proof {
                    if view.whole() {
                        assert(!table_readable(m, raw[i as int].1));
                        assert(table_of(raw[i as int].1) is None);
                    }
                }
                return Err(e);
            },
        };
        match verify_table(view, &table, &mut problems) {
            Ok(_) => {},
            Err(e) => {
                proof {
                    if view.whole() && reached(m, table@, Path::SeqScan) is Err {
                        assert(!table_readable(m, raw[i as int].1));
                    }
                }
                return Err(e);
            },
        }
    }
    proof {
        assert(texts(problems@).len() == problems@.len());
    }
    if problems.len() == 0 {
        return Ok(());
    }
    let head = join3(
        "index verification found ",
        u64_text(problems.len() as u64).as_str(),
        " problems:\n",
    );
    Err(ExecError::Exec(join2(head.as_str(), join_all(&problems, "\n").as_str())))
}

/// Check every index of every table, as the current branch holds them.
/// Returns a report of all problems found, or nothing when everything lines
/// up.
pub fn verify_indexes<S: Storage, M: Fn(BinaryOp, u64, u64) -> u64, T: Fn(u64) -> String>(
    session: &Session<S, M, T>,
) -> (r: core::result::Result<(), ExecError>)
    requires
        session.wf(),
    ensures
        session.sound() ==> match r {
            Ok(_) => all_indexed(session.db.data(), session.db.catalog()),
            Err(e) => e.fail() is Exec && !all_indexed(session.db.data(), session.db.catalog())
                && (all_readable(session.db.data(), session.db.catalog()) ==> e.text() == report(
                index_problems(session.db.data(), session.db.catalog()),
            )),
        },
{
    let view = session.db.snapshot();
    verify_all(&view)
}

} // verus!
