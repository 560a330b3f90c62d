//! Secondary indexes stay as their rows ask for, whatever statements run.
//!
//! A table is kept when every row stands at its own key and every index
//! holds one empty entry per row and nothing else. Adding, changing and
//! removing rows keeps it, making an index keeps it, and a table that is
//! kept passes the index check.

use vstd::prelude::*;
use vstd::utf8::encode_utf8;

use crate::ast::{Assign, Expr, Term};
use crate::catalog::{key_spots, lemma_key_spots, lemma_spot, spot, Col, Tab};
use crate::effects::{
    assign_ok, assigned, backfilled, built, del_done, entries_cut, entries_moved, entries_put,
    index_created, index_set, moves, put_done, row_cut, row_put, row_set,
    rows_cut, rows_put, rows_set, selected, set_done, table_dropped, unindexed, without, State,
};
use crate::encoding::{enc_key, law_decode_inverts_encode, Val};
use crate::node::sorted;
use crate::order::{lemma_lex_facts, lemma_lex_irrefl, lemma_lex_total, lex_lt};
use crate::plan::{conj, lemma_probed, pins, planned, probed, Path};
use crate::prefix::{law_successor_covers_prefix, successor};
use crate::query::{follow_all, followed, reached, read_all, sifted, Hit};
use crate::rows::{
    entry_at, id_val, law_keys_are_distinct, law_keys_start_with_their_object, pk_of, probe_at,
    range_at, row_at, row_of,
};
use crate::scan::{has_key, item_keys, lists, Item};
use crate::sorting::Row;
use crate::source::{lemma_listing, listing, table_in};
use crate::store::Bytes;
use crate::strings::lemma_utf8_injective;
use crate::value_ops::Math;
use crate::verify::{column_indexed, entries_for, has_item, holds_key, table_indexed};

verus! {

// ---------------------------------------------------------------------
// what is kept
// ---------------------------------------------------------------------

/// Whether a row of a table is stored, at its own key.
pub open spec fn is_row(m: Bytes, t: Tab, row: Row) -> bool {
    &&& m.contains_key(row_at(t.id, pk_of(t.columns, row)))
    &&& row_of(t.columns, m[row_at(t.id, pk_of(t.columns, row))]) == Some(row)
}

/// The entry of a row in the index of one column.
pub open spec fn entry_of(t: Tab, pos: int, row: Row) -> Seq<u8> {
    entry_at(t.columns[pos].index_id->0, row[pos], pk_of(t.columns, row))
}

/// Whether a column has an index.
pub open spec fn has_index(t: Tab, pos: int) -> bool {
    0 <= pos < t.columns.len() && t.columns[pos].index_id is Some
}

/// Whether everything under a table's prefix is a row at its own key.
pub open spec fn rows_kept(m: Bytes, t: Tab) -> bool {
    forall|k: Seq<u8>| #[trigger]
        m.contains_key(k) && range_at(t.id).is_prefix_of(k) ==> (row_of(t.columns, m[k]) matches Some(
            row,
        ) && k == row_at(t.id, pk_of(t.columns, row)))
}

/// Whether the index of a column holds an empty entry for every row and
/// nothing else.
pub open spec fn index_kept(m: Bytes, t: Tab, pos: int) -> bool {
    &&& forall|row: Row| #[trigger]
        is_row(m, t, row) ==> m.contains_key(entry_of(t, pos, row)) && m[entry_of(t, pos, row)]
            == Seq::<u8>::empty()
    &&& forall|k: Seq<u8>| #[trigger]
        m.contains_key(k) && range_at(t.columns[pos].index_id->0).is_prefix_of(k)
            ==> exists|row: Row| #[trigger] is_row(m, t, row) && k == entry_of(t, pos, row)
}

/// Whether a table and all its indexes are in step.
pub open spec fn kept(m: Bytes, t: Tab) -> bool {
    &&& rows_kept(m, t)
    &&& forall|pos: int| #[trigger] has_index(t, pos) ==> index_kept(m, t, pos)
}

/// Whether a table's own objects have different ids.
pub open spec fn own_ids(t: Tab) -> bool {
    &&& forall|pos: int| #[trigger] has_index(t, pos) ==> t.columns[pos].index_id != Some(t.id)
    &&& forall|i: int, j: int| #[trigger]
        has_index(t, i) && #[trigger] has_index(t, j) && i != j ==> t.columns[i].index_id
            != t.columns[j].index_id
}

/// Whether an object belongs to a table.
pub open spec fn owns(t: Tab, id: u64) -> bool {
    id == t.id || exists|pos: int| #[trigger] has_index(t, pos) && t.columns[pos].index_id == Some(id)
}

/// Whether two tables share no object.
pub open spec fn apart(t: Tab, u: Tab) -> bool {
    forall|id: u64| !(#[trigger] owns(t, id) && owns(u, id))
}

/// Whether a key belongs to one of a table's objects.
pub open spec fn within(t: Tab, k: Seq<u8>) -> bool {
    exists|id: u64| #[trigger] owns(t, id) && range_at(id).is_prefix_of(k)
}

/// Whether two databases have the same at every key of a table.
pub open spec fn same_within(m: Bytes, n: Bytes, u: Tab) -> bool {
    forall|k: Seq<u8>| #[trigger]
        within(u, k) ==> m.contains_key(k) == n.contains_key(k) && (m.contains_key(k) ==> m[k] == n[k])
}

/// Whether two databases differ at most at keys of a table.
pub open spec fn same_outside(m: Bytes, n: Bytes, t: Tab) -> bool {
    forall|k: Seq<u8>|
        !(#[trigger] within(t, k)) ==> m.contains_key(k) == n.contains_key(k) && (m.contains_key(k)
            ==> m[k] == n[k])
}

// ---------------------------------------------------------------------
// keys
// ---------------------------------------------------------------------

/// Objects with different ids share no key.
pub proof fn law_objects_share_no_key(a: u64, b: u64, k: Seq<u8>)
    requires
        range_at(a).is_prefix_of(k),
        range_at(b).is_prefix_of(k),
    ensures
        a == b,
{
    lemma_range_len(a);
    lemma_range_len(b);
    assert(range_at(a) =~= k.take(9));
    assert(range_at(b) =~= k.take(9));
    crate::encoding::law_encode_injective(seq![id_val(a)], seq![id_val(b)]);
    assert(seq![id_val(a)][0] == seq![id_val(b)][0]);
    assert(a as i64 == b as i64 ==> a == b) by (bit_vector);
}

proof fn lemma_range_len(id: u64)
    ensures
        range_at(id).len() == 9,
{
    let s = seq![id_val(id)];
    assert(s.skip(1) =~= Seq::empty());
    crate::bytes::lemma_be_bytes_len(crate::encoding::int_key(id as i64), 8);
    assert(enc_key(s.skip(1)) =~= Seq::empty());
}

pub proof fn lemma_entry_prefix(id: u64, v: Val, pk: Seq<Val>)
    ensures
        range_at(id).is_prefix_of(entry_at(id, v, pk)),
        probe_at(id, v).is_prefix_of(entry_at(id, v, pk)),
        range_at(id).is_prefix_of(row_at(id, pk)),
{
    law_keys_start_with_their_object(id, v, pk);
    assert((range_at(id) + enc_key(seq![v] + pk)).subrange(0, range_at(id).len() as int)
        =~= range_at(id));
    assert((probe_at(id, v) + enc_key(pk)).subrange(0, probe_at(id, v).len() as int) =~= probe_at(
        id,
        v,
    ));
    assert((range_at(id) + enc_key(pk)).subrange(0, range_at(id).len() as int) =~= range_at(id));
}

/// Two stored rows with one primary key are one row.
pub proof fn lemma_one_row(m: Bytes, t: Tab, a: Row, b: Row)
    requires
        is_row(m, t, a),
        is_row(m, t, b),
        pk_of(t.columns, a) == pk_of(t.columns, b),
    ensures
        a == b,
{
}

/// Whether a key is the entry of a row in the index of one of the first `n`
/// columns.
pub open spec fn entry_key(t: Tab, n: int, row: Row, k: Seq<u8>) -> bool {
    exists|pos: int| #[trigger] has_index(t, pos) && pos < n && k == entry_of(t, pos, row)
}

proof fn lemma_entry_key_next(t: Tab, n: int, row: Row, k: Seq<u8>)
    requires
        0 < n <= t.columns.len(),
    ensures
        entry_key(t, n, row, k) == (entry_key(t, n - 1, row, k) || (has_index(t, n - 1) && k
            == entry_of(t, n - 1, row))),
{
    if entry_key(t, n, row, k) {
        let pos = choose|pos: int| #[trigger] has_index(t, pos) && pos < n && k == entry_of(
            t,
            pos,
            row,
        );
        if pos < n - 1 {
            assert(entry_key(t, n - 1, row, k));
        }
    }
    if entry_key(t, n - 1, row, k) {
        let pos = choose|pos: int| #[trigger] has_index(t, pos) && pos < n - 1 && k == entry_of(
            t,
            pos,
            row,
        );
        assert(has_index(t, pos) && pos < n);
    }
}

/// An entry belongs to one index only.
proof fn lemma_entry_place(t: Tab, n: int, row: Row, k: Seq<u8>, id: u64)
    requires
        entry_key(t, n, row, k),
        range_at(id).is_prefix_of(k),
    ensures
        exists|pos: int| #[trigger]
            has_index(t, pos) && pos < n && k == entry_of(t, pos, row) && t.columns[pos].index_id
                == Some(id),
{
    let pos = choose|pos: int| #[trigger] has_index(t, pos) && pos < n && k == entry_of(
        t,
        pos,
        row,
    );
    let own = t.columns[pos].index_id->0;
    lemma_entry_prefix(own, row[pos], pk_of(t.columns, row));
    law_objects_share_no_key(own, id, k);
    assert(has_index(t, pos));
}

// ---------------------------------------------------------------------
// one row added, one row taken away
// ---------------------------------------------------------------------

proof fn lemma_entries_put(m: Bytes, t: Tab, n: int, row: Row, lim: int)
    requires
        0 <= n <= t.columns.len(),
        entries_put(m, t.columns, n, row, lim) is Ok,
    ensures
        ({
            let b = entries_put(m, t.columns, n, row, lim)->Ok_0;
            forall|k: Seq<u8>|
                #![trigger b.contains_key(k)]
                b.contains_key(k) == (m.contains_key(k) || entry_key(t, n, row, k))
                    && (b.contains_key(k) ==> b[k] == (if entry_key(t, n, row, k) {
                    Seq::<u8>::empty()
                } else {
                    m[k]
                }))
        }),
    decreases n,
{
    let b = entries_put(m, t.columns, n, row, lim)->Ok_0;
    if n > 0 {
        lemma_entries_put(m, t, n - 1, row, lim);
        let a = entries_put(m, t.columns, n - 1, row, lim)->Ok_0;
        assert forall|k: Seq<u8>|
            #![trigger b.contains_key(k)]
            b.contains_key(k) == (m.contains_key(k) || entry_key(t, n, row, k)) && (b.contains_key(k)
                ==> b[k] == (if entry_key(t, n, row, k) {
                Seq::<u8>::empty()
            } else {
                m[k]
            })) by {
            assert(a.contains_key(k) == (m.contains_key(k) || entry_key(t, n - 1, row, k)));
            lemma_entry_key_next(t, n, row, k);
        }
    } else {
        assert forall|k: Seq<u8>| !(#[trigger] entry_key(t, n, row, k)) by {
        }
    }
}

proof fn lemma_entries_cut(m: Bytes, t: Tab, n: int, row: Row)
    requires
        0 <= n <= t.columns.len(),
    ensures
        ({
            let b = entries_cut(m, t.columns, n, row);
            forall|k: Seq<u8>|
                #![trigger b.contains_key(k)]
                b.contains_key(k) == (m.contains_key(k) && !entry_key(t, n, row, k))
                    && (b.contains_key(k) ==> b[k] == m[k])
        }),
    decreases n,
{
    let b = entries_cut(m, t.columns, n, row);
    if n > 0 {
        lemma_entries_cut(m, t, n - 1, row);
        let a = entries_cut(m, t.columns, n - 1, row);
        assert forall|k: Seq<u8>|
            #![trigger b.contains_key(k)]
            b.contains_key(k) == (m.contains_key(k) && !entry_key(t, n, row, k)) && (b.contains_key(
                k,
            ) ==> b[k] == m[k]) by {
            assert(a.contains_key(k) == (m.contains_key(k) && !entry_key(t, n - 1, row, k)));
            lemma_entry_key_next(t, n, row, k);
        }
    } else {
        assert forall|k: Seq<u8>| !(#[trigger] entry_key(t, n, row, k)) by {
        }
    }
}

/// Whether `b` is `m` with one row and its entries added.
pub open spec fn added(m: Bytes, b: Bytes, t: Tab, row: Row) -> bool {
    let key = row_at(t.id, pk_of(t.columns, row));
    let n = t.columns.len() as int;
    forall|k: Seq<u8>|
        #![trigger b.contains_key(k)]
        b.contains_key(k) == (m.contains_key(k) || k == key || entry_key(t, n, row, k))
            && (b.contains_key(k) ==> b[k] == (if entry_key(t, n, row, k) {
            Seq::<u8>::empty()
        } else if k == key {
            enc_key(row)
        } else {
            m[k]
        }))
}

/// Whether `b` is `m` with one row and its entries taken away.
pub open spec fn taken(m: Bytes, b: Bytes, t: Tab, row: Row) -> bool {
    let key = row_at(t.id, pk_of(t.columns, row));
    let n = t.columns.len() as int;
    forall|k: Seq<u8>|
        #![trigger b.contains_key(k)]
        b.contains_key(k) == (m.contains_key(k) && k != key && !entry_key(t, n, row, k))
            && (b.contains_key(k) ==> b[k] == m[k])
}

/// A row key is no entry, and belongs to no index.
proof fn lemma_row_key(t: Tab, row: Row, other: Row, k: Seq<u8>)
    requires
        own_ids(t),
        k == row_at(t.id, pk_of(t.columns, row)),
    ensures
        range_at(t.id).is_prefix_of(k),
        !entry_key(t, t.columns.len() as int, other, k),
        forall|pos: int| #[trigger]
            has_index(t, pos) ==> !range_at(t.columns[pos].index_id->0).is_prefix_of(k),
{
    lemma_entry_prefix(t.id, Val::Null, pk_of(t.columns, row));
    if entry_key(t, t.columns.len() as int, other, k) {
        lemma_entry_place(t, t.columns.len() as int, other, k, t.id);
    }
    assert forall|pos: int| #[trigger] has_index(t, pos) implies !range_at(
        t.columns[pos].index_id->0,
    ).is_prefix_of(k) by {
        if range_at(t.columns[pos].index_id->0).is_prefix_of(k) {
            law_objects_share_no_key(t.id, t.columns[pos].index_id->0, k);
        }
    }
}

pub proof fn lemma_rows_after_add(m: Bytes, b: Bytes, t: Tab, row: Row, r: Row)
    requires
        own_ids(t),
        added(m, b, t, row),
        row.len() == t.columns.len(),
        !m.contains_key(row_at(t.id, pk_of(t.columns, row))),
    ensures
        is_row(b, t, r) == (is_row(m, t, r) || r == row),
{
    let key = row_at(t.id, pk_of(t.columns, row));
    let rk = row_at(t.id, pk_of(t.columns, r));
    lemma_row_key(t, r, row, rk);
    lemma_row_key(t, row, row, key);
    law_decode_inverts_encode(row);
    assert(b.contains_key(rk) == (m.contains_key(rk) || rk == key));
    assert(b.contains_key(key));
}

pub proof fn lemma_add_keeps(m: Bytes, b: Bytes, t: Tab, row: Row)
    requires
        own_ids(t),
        kept(m, t),
        added(m, b, t, row),
        row.len() == t.columns.len(),
        !m.contains_key(row_at(t.id, pk_of(t.columns, row))),
    ensures
        kept(b, t),
{
    let n = t.columns.len() as int;
    let key = row_at(t.id, pk_of(t.columns, row));
    law_decode_inverts_encode(row);
    assert forall|k: Seq<u8>| #[trigger]
        b.contains_key(k) && range_at(t.id).is_prefix_of(k) implies (row_of(t.columns, b[k]) matches Some(
        r,
    ) && k == row_at(t.id, pk_of(t.columns, r))) by {
        if entry_key(t, n, row, k) {
            lemma_entry_place(t, n, row, k, t.id);
        }
        assert(b.contains_key(k) == (m.contains_key(k) || k == key || entry_key(t, n, row, k)));
    }
    assert forall|pos: int| #[trigger] has_index(t, pos) implies index_kept(b, t, pos) by {
        let id = t.columns[pos].index_id->0;
        assert(index_kept(m, t, pos));
        assert forall|r: Row| #[trigger] is_row(b, t, r) implies b.contains_key(entry_of(t, pos, r))
            && b[entry_of(t, pos, r)] == Seq::<u8>::empty() by {
            lemma_rows_after_add(m, b, t, row, r);
            let e = entry_of(t, pos, r);
            lemma_entry_prefix(id, r[pos], pk_of(t.columns, r));
            if e == key {
                lemma_row_key(t, row, row, key);
            }
            if r == row {
                assert(entry_key(t, n, row, e));
            } else {
                assert(is_row(m, t, r));
                assert(m.contains_key(e));
            }
            assert(b.contains_key(e) == (m.contains_key(e) || e == key || entry_key(t, n, row, e)));
        }
        assert forall|k: Seq<u8>| #[trigger]
            b.contains_key(k) && range_at(id).is_prefix_of(k) implies exists|r: Row| #[trigger]
            is_row(b, t, r) && k == entry_of(t, pos, r) by {
            assert(b.contains_key(k) == (m.contains_key(k) || k == key || entry_key(t, n, row, k)));
            if entry_key(t, n, row, k) {
                lemma_entry_place(t, n, row, k, id);
                lemma_rows_after_add(m, b, t, row, row);
                assert(is_row(b, t, row) && k == entry_of(t, pos, row));
            } else if k == key {
                lemma_row_key(t, row, row, key);
            } else {
                let r = choose|r: Row| #[trigger] is_row(m, t, r) && k == entry_of(t, pos, r);
                lemma_rows_after_add(m, b, t, row, r);
                assert(is_row(b, t, r));
            }
        }
    }
}

pub proof fn lemma_rows_after_take(m: Bytes, b: Bytes, t: Tab, row: Row, r: Row)
    requires
        own_ids(t),
        taken(m, b, t, row),
        is_row(m, t, row),
    ensures
        is_row(b, t, r) == (is_row(m, t, r) && r != row),
{
    let rk = row_at(t.id, pk_of(t.columns, r));
    let key = row_at(t.id, pk_of(t.columns, row));
    lemma_row_key(t, r, row, rk);
    assert(b.contains_key(rk) == (m.contains_key(rk) && rk != key && !entry_key(
        t,
        t.columns.len() as int,
        row,
        rk,
    )));
    if rk == key && is_row(m, t, r) {
        law_keys_are_distinct(
            t.id,
            Val::Null,
            pk_of(t.columns, r),
            Val::Null,
            pk_of(t.columns, row),
        );
        lemma_one_row(m, t, r, row);
    }
}

pub proof fn lemma_take_keeps(m: Bytes, b: Bytes, t: Tab, row: Row)
    requires
        own_ids(t),
        kept(m, t),
        taken(m, b, t, row),
        is_row(m, t, row),
    ensures
        kept(b, t),
{
    let n = t.columns.len() as int;
    let key = row_at(t.id, pk_of(t.columns, row));
    assert forall|k: Seq<u8>| #[trigger]
        b.contains_key(k) && range_at(t.id).is_prefix_of(k) implies (row_of(t.columns, b[k]) matches Some(
        r,
    ) && k == row_at(t.id, pk_of(t.columns, r))) by {
        assert(m.contains_key(k));
    }
    assert forall|pos: int| #[trigger] has_index(t, pos) implies index_kept(b, t, pos) by {
        let id = t.columns[pos].index_id->0;
        assert(index_kept(m, t, pos));
        assert forall|r: Row| #[trigger] is_row(b, t, r) implies b.contains_key(entry_of(t, pos, r))
            && b[entry_of(t, pos, r)] == Seq::<u8>::empty() by {
            lemma_rows_after_take(m, b, t, row, r);
            let e = entry_of(t, pos, r);
            lemma_entry_prefix(id, r[pos], pk_of(t.columns, r));
            assert(is_row(m, t, r));
            if e == key {
                lemma_row_key(t, row, row, key);
            }
            if entry_key(t, n, row, e) {
                lemma_entry_place(t, n, row, e, id);
                law_keys_are_distinct(
                    id,
                    r[pos],
                    pk_of(t.columns, r),
                    row[pos],
                    pk_of(t.columns, row),
                );
                lemma_one_row(m, t, r, row);
            }
            assert(b.contains_key(e) == (m.contains_key(e) && e != key && !entry_key(
                t,
                n,
                row,
                e,
            )));
        }
        assert forall|k: Seq<u8>| #[trigger]
            b.contains_key(k) && range_at(id).is_prefix_of(k) implies exists|r: Row| #[trigger]
            is_row(b, t, r) && k == entry_of(t, pos, r) by {
            assert(m.contains_key(k));
            let r = choose|r: Row| #[trigger] is_row(m, t, r) && k == entry_of(t, pos, r);
            if r == row {
                assert(entry_key(t, n, row, k));
            }
            lemma_rows_after_take(m, b, t, row, r);
            assert(is_row(b, t, r));
        }
    }
}

// ---------------------------------------------------------------------
// other tables
// ---------------------------------------------------------------------

proof fn lemma_entry_within(t: Tab, n: int, row: Row, k: Seq<u8>)
    requires
        entry_key(t, n, row, k),
    ensures
        within(t, k),
{
    let pos = choose|pos: int| #[trigger] has_index(t, pos) && pos < n && k == entry_of(
        t,
        pos,
        row,
    );
    let id = t.columns[pos].index_id->0;
    lemma_entry_prefix(id, row[pos], pk_of(t.columns, row));
    assert(owns(t, id));
}

proof fn lemma_add_local(m: Bytes, b: Bytes, t: Tab, row: Row)
    requires
        added(m, b, t, row),
    ensures
        same_outside(m, b, t),
{
    let key = row_at(t.id, pk_of(t.columns, row));
    lemma_entry_prefix(t.id, Val::Null, pk_of(t.columns, row));
    assert(owns(t, t.id));
    assert forall|k: Seq<u8>| !(#[trigger] within(t, k)) implies m.contains_key(k)
        == b.contains_key(k) && (m.contains_key(k) ==> m[k] == b[k]) by {
        if entry_key(t, t.columns.len() as int, row, k) {
            lemma_entry_within(t, t.columns.len() as int, row, k);
        }
        assert(k != key);
        assert(b.contains_key(k) == (m.contains_key(k) || k == key || entry_key(
            t,
            t.columns.len() as int,
            row,
            k,
        )));
    }
}

proof fn lemma_take_local(m: Bytes, b: Bytes, t: Tab, row: Row)
    requires
        taken(m, b, t, row),
    ensures
        same_outside(m, b, t),
{
    let key = row_at(t.id, pk_of(t.columns, row));
    lemma_entry_prefix(t.id, Val::Null, pk_of(t.columns, row));
    assert(owns(t, t.id));
    assert forall|k: Seq<u8>| !(#[trigger] within(t, k)) implies m.contains_key(k)
        == b.contains_key(k) && (m.contains_key(k) ==> m[k] == b[k]) by {
        if entry_key(t, t.columns.len() as int, row, k) {
            lemma_entry_within(t, t.columns.len() as int, row, k);
        }
        assert(k != key);
        assert(b.contains_key(k) == (m.contains_key(k) && k != key && !entry_key(
            t,
            t.columns.len() as int,
            row,
            k,
        )));
    }
}

/// What happens to one table leaves every other table as it was.
pub proof fn law_tables_do_not_touch_each_other(m: Bytes, n: Bytes, t: Tab, u: Tab)
    requires
        same_outside(m, n, t),
        apart(t, u),
    ensures
        same_within(m, n, u),
        kept(m, u) ==> kept(n, u),
{
    assert forall|k: Seq<u8>| #[trigger] within(u, k) implies m.contains_key(k) == n.contains_key(k)
        && (m.contains_key(k) ==> m[k] == n[k]) by {
        if within(t, k) {
            let a = choose|id: u64| #[trigger] owns(t, id) && range_at(id).is_prefix_of(k);
            let b = choose|id: u64| #[trigger] owns(u, id) && range_at(id).is_prefix_of(k);
            law_objects_share_no_key(a, b, k);
            assert(owns(t, a) && owns(u, a));
        }
    }
    if kept(m, u) {
        lemma_kept_within(m, n, u);
    }
}

pub proof fn lemma_row_within(m: Bytes, n: Bytes, u: Tab, r: Row)
    requires
        same_within(m, n, u),
    ensures
        is_row(m, u, r) == is_row(n, u, r),
{
    let k = row_at(u.id, pk_of(u.columns, r));
    lemma_entry_prefix(u.id, Val::Null, pk_of(u.columns, r));
    assert(owns(u, u.id));
    assert(within(u, k));
}

proof fn lemma_kept_within(m: Bytes, n: Bytes, u: Tab)
    requires
        same_within(m, n, u),
        kept(m, u),
    ensures
        kept(n, u),
{
    assert(owns(u, u.id));
    assert forall|k: Seq<u8>| #[trigger]
        n.contains_key(k) && range_at(u.id).is_prefix_of(k) implies (row_of(u.columns, n[k]) matches Some(
        r,
    ) && k == row_at(u.id, pk_of(u.columns, r))) by {
        assert(within(u, k));
        assert(m.contains_key(k));
    }
    assert forall|pos: int| #[trigger] has_index(u, pos) implies index_kept(n, u, pos) by {
        let id = u.columns[pos].index_id->0;
        assert(owns(u, id));
        assert(index_kept(m, u, pos));
        assert forall|r: Row| #[trigger] is_row(n, u, r) implies n.contains_key(entry_of(u, pos, r))
            && n[entry_of(u, pos, r)] == Seq::<u8>::empty() by {
            lemma_row_within(m, n, u, r);
            lemma_entry_prefix(id, r[pos], pk_of(u.columns, r));
            assert(within(u, entry_of(u, pos, r)));
        }
        assert forall|k: Seq<u8>| #[trigger]
            n.contains_key(k) && range_at(id).is_prefix_of(k) implies exists|r: Row| #[trigger]
            is_row(n, u, r) && k == entry_of(u, pos, r) by {
            assert(within(u, k));
            assert(m.contains_key(k));
            let r = choose|r: Row| #[trigger] is_row(m, u, r) && k == entry_of(u, pos, r);
            lemma_row_within(m, n, u, r);
            assert(is_row(n, u, r));
        }
    }
}

proof fn lemma_outside_trans(a: Bytes, b: Bytes, c: Bytes, t: Tab)
    requires
        same_outside(a, b, t),
        same_outside(b, c, t),
    ensures
        same_outside(a, c, t),
{
    assert forall|k: Seq<u8>| !(#[trigger] within(t, k)) implies a.contains_key(k)
        == c.contains_key(k) && (a.contains_key(k) ==> a[k] == c[k]) by {
        assert(a.contains_key(k) == b.contains_key(k));
        assert(b.contains_key(k) == c.contains_key(k));
    }
}

// ---------------------------------------------------------------------
// put
// ---------------------------------------------------------------------

pub proof fn lemma_row_put(m: Bytes, t: Tab, row: Row, lim: int)
    requires
        own_ids(t),
        row_put(m, t, row, lim) is Ok,
    ensures
        added(m, row_put(m, t, row, lim)->Ok_0, t, row),
        !m.contains_key(row_at(t.id, pk_of(t.columns, row))),
{
    let key = row_at(t.id, pk_of(t.columns, row));
    let n = t.columns.len() as int;
    let a = m.insert(key, enc_key(row));
    let b = row_put(m, t, row, lim)->Ok_0;
    lemma_entries_put(a, t, n, row, lim);
    assert forall|k: Seq<u8>|
        #![trigger b.contains_key(k)]
        b.contains_key(k) == (m.contains_key(k) || k == key || entry_key(t, n, row, k))
            && (b.contains_key(k) ==> b[k] == (if entry_key(t, n, row, k) {
            Seq::<u8>::empty()
        } else if k == key {
            enc_key(row)
        } else {
            m[k]
        })) by {
        assert(b.contains_key(k) == (a.contains_key(k) || entry_key(t, n, row, k)));
    }
}

pub proof fn lemma_rows_put_keeps(
    m: Bytes,
    t: Tab,
    rows: Seq<Vec<(String, Expr)>>,
    n: int,
    lim: int,
    g: Math,
)
    requires
        own_ids(t),
        kept(m, t),
        rows_put(m, t, rows, n, lim, g) is Ok,
    ensures
        kept(rows_put(m, t, rows, n, lim, g)->Ok_0, t),
        same_outside(m, rows_put(m, t, rows, n, lim, g)->Ok_0, t),
    decreases n,
{
    if n > 0 {
        lemma_rows_put_keeps(m, t, rows, n - 1, lim, g);
        let a = rows_put(m, t, rows, n - 1, lim, g)->Ok_0;
        let row = built(t, rows[n - 1]@, g)->Ok_0;
        let b = row_put(a, t, row, lim)->Ok_0;
        lemma_row_put(a, t, row, lim);
        lemma_add_keeps(a, b, t, row);
        lemma_add_local(a, b, t, row);
        lemma_outside_trans(m, a, b, t);
    }
}

/// Adding rows keeps a table and its indexes in step, and leaves every
/// other table alone.
pub proof fn law_put_keeps_indexes(
    st: State,
    name: Seq<char>,
    rows: Seq<Vec<(String, Expr)>>,
    lim: int,
    g: Math,
)
    requires
        table_in(st.schema, name) is Ok,
        own_ids(table_in(st.schema, name)->Ok_0),
        kept(st.data, table_in(st.schema, name)->Ok_0),
        put_done(st, name, rows, lim, g) is Ok,
    ensures
        kept(put_done(st, name, rows, lim, g)->Ok_0.data, table_in(st.schema, name)->Ok_0),
        same_outside(
            st.data,
            put_done(st, name, rows, lim, g)->Ok_0.data,
            table_in(st.schema, name)->Ok_0,
        ),
{
    lemma_rows_put_keeps(
        st.data,
        table_in(st.schema, name)->Ok_0,
        rows,
        rows.len() as int,
        lim,
        g,
    );
}

// ---------------------------------------------------------------------
// what a filter selects
// ---------------------------------------------------------------------

/// A finite map has a list of what is under a prefix.
pub proof fn lemma_listing_lists(m: Bytes, prefix: Seq<u8>)
    requires
        m.dom().finite(),
    ensures
        lists(m, Some(prefix), successor(prefix), listing(m, prefix)),
    decreases m.dom().len(),
{
    let s = lemma_some_list(m, prefix);
    lemma_listing(m, prefix, s);
}

proof fn lemma_some_list(m: Bytes, prefix: Seq<u8>) -> (s: Seq<Item>)
    requires
        m.dom().finite(),
    ensures
        lists(m, Some(prefix), successor(prefix), s),
    decreases m.dom().len(),
{
    if m.dom().len() == 0 {
        assert(m.dom() =~= Set::empty());
        Seq::empty()
    } else {
        let k = m.dom().choose();
        let less = m.remove(k);
        assert(less.dom() =~= m.dom().remove(k));
        let s = lemma_some_list(less, prefix);
        law_successor_covers_prefix(prefix, k);
        if !prefix.is_prefix_of(k) {
            assert forall|j: Seq<u8>| #[trigger] m.contains_key(j) && crate::tree::in_range(
                j,
                Some(prefix),
                successor(prefix),
            ) implies has_key(s, j) by {
                assert(less.contains_key(j));
            }
            s
        } else {
            let i = lemma_gap(s, k, s.len() as int);
            let r = s.insert(i, (k, m[k]));
            lemma_insert_lists(less, m, prefix, s, k, i);
            r
        }
    }
}

/// Where a new key goes in a sorted list.
proof fn lemma_gap(s: Seq<Item>, k: Seq<u8>, n: int) -> (i: int)
    requires
        sorted(item_keys(s)),
        0 <= n <= s.len(),
        forall|j: int| n <= j < s.len() ==> lex_lt(k, (#[trigger] s[j]).0),
        forall|j: int| 0 <= j < s.len() ==> (#[trigger] s[j]).0 != k,
    ensures
        0 <= i <= s.len(),
        forall|j: int| 0 <= j < i ==> lex_lt((#[trigger] s[j]).0, k),
        forall|j: int| i <= j < s.len() ==> lex_lt(k, (#[trigger] s[j]).0),
    decreases n,
{
    if n == 0 {
        0
    } else {
        lemma_lex_facts();
        lemma_lex_total(s[n - 1].0, k);
        let ks = item_keys(s);
        if lex_lt(s[n - 1].0, k) {
            assert forall|j: int| 0 <= j < n implies lex_lt((#[trigger] s[j]).0, k) by {
                if j < n - 1 {
                    assert(lex_lt(ks[j], ks[n - 1]));
                }
            }
            n
        } else {
            lemma_gap(s, k, n - 1)
        }
    }
}

proof fn lemma_insert_lists(
    less: Bytes,
    m: Bytes,
    prefix: Seq<u8>,
    s: Seq<Item>,
    k: Seq<u8>,
    i: int,
)
    requires
        lists(less, Some(prefix), successor(prefix), s),
        m.contains_key(k),
        less == m.remove(k),
        prefix.is_prefix_of(k),
        0 <= i <= s.len(),
        forall|j: int| 0 <= j < i ==> lex_lt((#[trigger] s[j]).0, k),
        forall|j: int| i <= j < s.len() ==> lex_lt(k, (#[trigger] s[j]).0),
    ensures
        lists(m, Some(prefix), successor(prefix), s.insert(i, (k, m[k]))),
{
    let r = s.insert(i, (k, m[k]));
    law_successor_covers_prefix(prefix, k);
    assert forall|a: int, b: int| 0 <= a < b < item_keys(r).len() implies lex_lt(
        #[trigger] item_keys(r)[a],
        #[trigger] item_keys(r)[b],
    ) by {
        let ks = item_keys(s);
        if b < i {
            assert(lex_lt(ks[a], ks[b]));
        } else if b == i {
            assert(lex_lt(s[a].0, k));
        } else if a < i {
            assert(lex_lt(ks[a], ks[b - 1]));
        } else if a == i {
            assert(lex_lt(k, s[b - 1].0));
        } else {
            assert(lex_lt(ks[a - 1], ks[b - 1]));
        }
    }
    assert forall|a: int| 0 <= a < r.len() implies m.contains_key((#[trigger] r[a]).0)
        && m[r[a].0] == r[a].1 && crate::tree::in_range(
        r[a].0,
        Some(prefix),
        successor(prefix),
    ) by {
        if a < i {
            assert(r[a] == s[a]);
        } else if a > i {
            assert(r[a] == s[a - 1]);
        }
    }
    assert forall|j: Seq<u8>| #[trigger] m.contains_key(j) && crate::tree::in_range(
        j,
        Some(prefix),
        successor(prefix),
    ) implies has_key(r, j) by {
        if j == k {
            assert(r[i].0 == j);
        } else {
            assert(less.contains_key(j));
            let a = choose|a: int| 0 <= a < s.len() && (#[trigger] s[a]).0 == j;
            if a < i {
                assert(r[a] == s[a]);
            } else {
                assert(r[a + 1] == s[a]);
            }
        }
    }
}

/// What a listing holds: exactly what is under the prefix.
pub proof fn lemma_listed(m: Bytes, prefix: Seq<u8>)
    requires
        m.dom().finite(),
    ensures
        forall|i: int|
            0 <= i < listing(m, prefix).len() ==> m.contains_key(
                (#[trigger] listing(m, prefix)[i]).0,
            ) && m[listing(m, prefix)[i].0] == listing(m, prefix)[i].1 && prefix.is_prefix_of(
                listing(m, prefix)[i].0,
            ),
        forall|k: Seq<u8>| #[trigger]
            m.contains_key(k) && prefix.is_prefix_of(k) ==> has_key(listing(m, prefix), k),
        forall|i: int, j: int|
            0 <= i < j < listing(m, prefix).len() ==> (#[trigger] listing(m, prefix)[i]).0 != (
            #[trigger] listing(m, prefix)[j]).0,
{
    let s = listing(m, prefix);
    lemma_listing_lists(m, prefix);
    assert forall|i: int| 0 <= i < s.len() implies m.contains_key((#[trigger] s[i]).0) && m[s[i].0]
        == s[i].1 && prefix.is_prefix_of(s[i].0) by {
        law_successor_covers_prefix(prefix, s[i].0);
    }
    assert forall|k: Seq<u8>| #[trigger]
        m.contains_key(k) && prefix.is_prefix_of(k) implies has_key(s, k) by {
        law_successor_covers_prefix(prefix, k);
    }
    assert forall|i: int, j: int| 0 <= i < j < s.len() implies (#[trigger] s[i]).0 != (
    #[trigger] s[j]).0 by {
        assert(lex_lt(item_keys(s)[i], item_keys(s)[j]));
        lemma_lex_irrefl(s[i].0);
    }
}

/// Whether hits are stored rows of a table, each once.
pub open spec fn real_hits(m: Bytes, t: Tab, h: Seq<Hit>) -> bool {
    &&& forall|i: int|
        0 <= i < h.len() ==> is_row(m, t, (#[trigger] h[i]).1) && h[i].0 == row_at(
            t.id,
            pk_of(t.columns, h[i].1),
        )
    &&& forall|i: int, j: int|
        0 <= i < j < h.len() ==> (#[trigger] h[i]).0 != (#[trigger] h[j]).0
}

pub proof fn lemma_read_all_hits(m: Bytes, t: Tab, raw: Seq<Item>)
    requires
        rows_kept(m, t),
        forall|i: int|
            0 <= i < raw.len() ==> m.contains_key((#[trigger] raw[i]).0) && m[raw[i].0] == raw[i].1
                && range_at(t.id).is_prefix_of(raw[i].0),
        forall|i: int, j: int|
            0 <= i < j < raw.len() ==> (#[trigger] raw[i]).0 != (#[trigger] raw[j]).0,
    ensures
        read_all(t.columns, raw) matches Ok(h) && h.len() == raw.len() && real_hits(m, t, h)
            && forall|i: int| 0 <= i < raw.len() ==> (#[trigger] h[i]).0 == raw[i].0,
    decreases raw.len(),
{
    if raw.len() > 0 {
        let less = raw.drop_last();
        assert forall|i: int| 0 <= i < less.len() implies m.contains_key((#[trigger] less[i]).0)
            && m[less[i].0] == less[i].1 && range_at(t.id).is_prefix_of(less[i].0) by {
            assert(less[i] == raw[i]);
        }
        assert forall|i: int, j: int| 0 <= i < j < less.len() implies (#[trigger] less[i]).0 != (
        #[trigger] less[j]).0 by {
            assert(less[i] == raw[i] && less[j] == raw[j]);
        }
        lemma_read_all_hits(m, t, less);
        let last = raw.last();
        assert(raw[raw.len() - 1] == last);
        assert(m.contains_key(last.0) && range_at(t.id).is_prefix_of(last.0));
        let row = row_of(t.columns, m[last.0])->0;
        assert(is_row(m, t, row));
        let h = read_all(t.columns, less)->Ok_0;
        let g = h.push((last.0, row));
        assert forall|i: int, j: int| 0 <= i < j < g.len() implies (#[trigger] g[i]).0 != (
        #[trigger] g[j]).0 by {
            if j == h.len() {
                assert(g[i] == h[i]);
                assert(h[i].0 == less[i].0);
                assert(less[i] == raw[i]);
            }
        }
    }
}

/// An index entry leads to its row.
proof fn lemma_followed(m: Bytes, t: Tab, pos: int, k: Seq<u8>) -> (row: Row)
    requires
        kept(m, t),
        has_index(t, pos),
        m.contains_key(k),
        range_at(t.columns[pos].index_id->0).is_prefix_of(k),
    ensures
        is_row(m, t, row),
        k == entry_of(t, pos, row),
        followed(m, t, k) matches Ok(hit) ==> hit == (row_at(t.id, pk_of(t.columns, row)), row),
        pk_of(t.columns, row).len() > 0 ==> followed(m, t, k) is Ok,
{
    assert(index_kept(m, t, pos));
    let id = t.columns[pos].index_id->0;
    let row = choose|row: Row| #[trigger] is_row(m, t, row) && k == entry_of(t, pos, row);
    let vs = seq![id_val(id), row[pos]] + pk_of(t.columns, row);
    law_decode_inverts_encode(vs);
    assert(vs.skip(2) =~= pk_of(t.columns, row));
    row
}

pub proof fn lemma_follow_hits(m: Bytes, t: Tab, pos: int, entries: Seq<Item>)
    requires
        kept(m, t),
        has_index(t, pos),
        forall|i: int|
            0 <= i < entries.len() ==> m.contains_key((#[trigger] entries[i]).0) && range_at(
                t.columns[pos].index_id->0,
            ).is_prefix_of(entries[i].0),
        forall|i: int, j: int|
            0 <= i < j < entries.len() ==> (#[trigger] entries[i]).0 != (#[trigger] entries[j]).0,
        follow_all(m, t, entries) is Ok,
    ensures
        follow_all(m, t, entries)->Ok_0.len() == entries.len(),
        real_hits(m, t, follow_all(m, t, entries)->Ok_0),
        forall|i: int|
            0 <= i < entries.len() ==> (#[trigger] entries[i]).0 == entry_of(
                t,
                pos,
                follow_all(m, t, entries)->Ok_0[i].1,
            ),
    decreases entries.len(),
{
    if entries.len() > 0 {
        let less = entries.drop_last();
        assert forall|i: int| 0 <= i < less.len() implies m.contains_key((#[trigger] less[i]).0)
            && range_at(t.columns[pos].index_id->0).is_prefix_of(less[i].0) by {
            assert(less[i] == entries[i]);
        }
        assert forall|i: int, j: int| 0 <= i < j < less.len() implies (#[trigger] less[i]).0 != (
        #[trigger] less[j]).0 by {
            assert(less[i] == entries[i] && less[j] == entries[j]);
        }
        lemma_follow_hits(m, t, pos, less);
        let h = follow_all(m, t, less)->Ok_0;
        let e = entries.last().0;
        assert(entries[entries.len() - 1].0 == e);
        let row = lemma_followed(m, t, pos, e);
        let hit = followed(m, t, e)->Ok_0;
        let g = h.push(hit);
        assert forall|i: int| 0 <= i < entries.len() implies (#[trigger] entries[i]).0 == entry_of(
            t,
            pos,
            g[i].1,
        ) by {
            if i < less.len() {
                assert(less[i] == entries[i]);
            }
        }
        assert forall|i: int| 0 <= i < g.len() implies is_row(m, t, (#[trigger] g[i]).1) && g[i].0
            == row_at(t.id, pk_of(t.columns, g[i].1)) by {
            if i < h.len() {
                assert(g[i] == h[i]);
            }
        }
        assert forall|i: int, j: int| 0 <= i < j < g.len() implies (#[trigger] g[i]).0 != (
        #[trigger] g[j]).0 by {
            if j == h.len() && g[i].0 == g[j].0 {
                law_keys_are_distinct(
                    t.id,
                    Val::Null,
                    pk_of(t.columns, g[i].1),
                    Val::Null,
                    pk_of(t.columns, g[j].1),
                );
                lemma_one_row(m, t, g[i].1, g[j].1);
                assert(entries[i].0 == entries[j].0);
            }
        }
    }
}

/// A path that a plan can take: an index scan names an index of the table.
pub open spec fn path_ok(t: Tab, p: Path) -> bool {
    p matches Path::IndexScan(pos, id, _) ==> has_index(t, pos) && t.columns[pos].index_id == Some(
        id,
    )
}

pub proof fn lemma_planned_path(t: Tab, filter: Option<Term>)
    requires
        planned(t, filter) is Ok,
    ensures
        path_ok(t, planned(t, filter)->Ok_0.path),
{
    if let Some(f) = filter {
        let parts = conj(f);
        lemma_probed(t, parts);
        if let Some(i) = probed(t, parts) {
            lemma_spot(t.columns, (pins(parts[i])->0).0.column);
        }
    }
}

pub proof fn lemma_reached_hits(m: Bytes, t: Tab, p: Path)
    requires
        m.dom().finite(),
        kept(m, t),
        path_ok(t, p),
        reached(m, t, p) is Ok,
    ensures
        real_hits(m, t, reached(m, t, p)->Ok_0),
{
    match p {
        Path::KeyLookup(vs) => {
            lemma_entry_prefix(t.id, Val::Null, vs);
            let k = row_at(t.id, vs);
            if m.contains_key(k) {
                let row = row_of(t.columns, m[k])->0;
                assert(is_row(m, t, row));
            }
        },
        Path::IndexScan(pos, id, v) => {
            lemma_listed(m, probe_at(id, v));
            let s = listing(m, probe_at(id, v));
            assert forall|i: int| 0 <= i < s.len() implies m.contains_key((#[trigger] s[i]).0)
                && range_at(id).is_prefix_of(s[i].0) by {
                lemma_probe_range(id, v, s[i].0);
            }
            lemma_follow_hits(m, t, pos, s);
        },
        Path::SeqScan => {
            lemma_listed(m, range_at(t.id));
            lemma_read_all_hits(m, t, listing(m, range_at(t.id)));
        },
    }
}

pub proof fn lemma_probe_range(id: u64, v: Val, k: Seq<u8>)
    requires
        probe_at(id, v).is_prefix_of(k),
    ensures
        range_at(id).is_prefix_of(k),
{
    crate::encoding::law_tuple_prefix(seq![id_val(id)], seq![v]);
    assert(seq![id_val(id)] + seq![v] =~= seq![id_val(id), v]);
    let a = range_at(id);
    let p = probe_at(id, v);
    assert(k.subrange(0, a.len() as int) =~= k.subrange(0, p.len() as int).subrange(
        0,
        a.len() as int,
    ));
}

/// What a condition leaves of real hits is real hits.
pub proof fn lemma_sifted_hits(m: Bytes, t: Tab, h: Seq<Hit>, e: Term, g: Math)
    requires
        real_hits(m, t, h),
        sifted(t, h, e, g) is Ok,
    ensures
        real_hits(m, t, sifted(t, h, e, g)->Ok_0),
        forall|i: int|
            0 <= i < sifted(t, h, e, g)->Ok_0.len() ==> h.contains(
                #[trigger] sifted(t, h, e, g)->Ok_0[i],
            ),
    decreases h.len(),
{
    if h.len() > 0 {
        let less = h.drop_last();
        assert(real_hits(m, t, less)) by {
            assert forall|i: int| 0 <= i < less.len() implies is_row(m, t, (#[trigger] less[i]).1)
                && less[i].0 == row_at(t.id, pk_of(t.columns, less[i].1)) by {
                assert(less[i] == h[i]);
            }
            assert forall|i: int, j: int| 0 <= i < j < less.len() implies (#[trigger] less[i]).0
                != (#[trigger] less[j]).0 by {
                assert(less[i] == h[i] && less[j] == h[j]);
            }
        }
        lemma_sifted_hits(m, t, less, e, g);
        let a = sifted(t, less, e, g)->Ok_0;
        let b = sifted(t, h, e, g)->Ok_0;
        let last = h.len() - 1;
        assert(h[last] == h.last());
        assert forall|i: int| 0 <= i < a.len() implies exists|j: int|
            0 <= j < last && h[j] == #[trigger] a[i] by {
            assert(less.contains(a[i]));
            let j = choose|j: int| 0 <= j < less.len() && less[j] == a[i];
            assert(h[j] == a[i]);
        }
        assert forall|i: int| 0 <= i < b.len() implies h.contains(#[trigger] b[i]) by {
            if i < a.len() {
                assert(b[i] == a[i]);
            } else {
                assert(b[i] == h[last]);
            }
        }
        assert forall|i: int| 0 <= i < b.len() implies is_row(m, t, (#[trigger] b[i]).1) && b[i].0
            == row_at(t.id, pk_of(t.columns, b[i].1)) by {
            let j = choose|j: int| 0 <= j < h.len() && h[j] == b[i];
            assert(h.contains(b[i]));
        }
        assert forall|i: int, j: int| 0 <= i < j < b.len() implies (#[trigger] b[i]).0 != (
        #[trigger] b[j]).0 by {
            if j == a.len() {
                assert(b[i] == a[i]);
                let x = choose|x: int| 0 <= x < last && h[x] == a[i];
                assert(h[x].0 != h[last].0);
            }
        }
    }
}

pub proof fn lemma_selected_hits(st: State, name: Seq<char>, filter: Option<Term>, g: Math)
    requires
        st.data.dom().finite(),
        selected(st, name, filter, g) is Ok,
        kept(st.data, table_in(st.schema, name)->Ok_0),
    ensures
        selected(st, name, filter, g)->Ok_0.0 == table_in(st.schema, name)->Ok_0,
        real_hits(
            st.data,
            table_in(st.schema, name)->Ok_0,
            selected(st, name, filter, g)->Ok_0.1,
        ),
{
    let t = table_in(st.schema, name)->Ok_0;
    let w = planned(t, filter)->Ok_0;
    lemma_planned_path(t, filter);
    lemma_reached_hits(st.data, t, w.path);
    if let Some(e) = w.residual {
        lemma_sifted_hits(st.data, t, reached(st.data, t, w.path)->Ok_0, e, g);
    }
}

// ---------------------------------------------------------------------
// del
// ---------------------------------------------------------------------

pub proof fn lemma_row_cut(m: Bytes, t: Tab, h: Hit)
    requires
        h.0 == row_at(t.id, pk_of(t.columns, h.1)),
    ensures
        taken(m, row_cut(m, t, h), t, h.1),
{
    let n = t.columns.len() as int;
    let a = m.remove(h.0);
    let b = row_cut(m, t, h);
    lemma_entries_cut(a, t, n, h.1);
    assert forall|k: Seq<u8>|
        #![trigger b.contains_key(k)]
        b.contains_key(k) == (m.contains_key(k) && k != h.0 && !entry_key(t, n, h.1, k))
            && (b.contains_key(k) ==> b[k] == m[k]) by {
        assert(b.contains_key(k) == (a.contains_key(k) && !entry_key(t, n, h.1, k)));
    }
}

pub proof fn lemma_rows_cut_keeps(m: Bytes, t: Tab, h: Seq<Hit>)
    requires
        own_ids(t),
        kept(m, t),
        real_hits(m, t, h),
    ensures
        kept(rows_cut(m, t, h), t),
        same_outside(m, rows_cut(m, t, h), t),
        forall|r: Row| #[trigger]
            is_row(rows_cut(m, t, h), t, r) == (is_row(m, t, r) && forall|i: int|
                0 <= i < h.len() ==> (#[trigger] h[i]).1 != r),
    decreases h.len(),
{
    if h.len() > 0 {
        let less = h.drop_last();
        let hit = h.last();
        let last = h.len() - 1;
        assert(h[last] == hit);
        assert(real_hits(m, t, less)) by {
            assert forall|i: int| 0 <= i < less.len() implies is_row(m, t, (#[trigger] less[i]).1)
                && less[i].0 == row_at(t.id, pk_of(t.columns, less[i].1)) by {
                assert(less[i] == h[i]);
            }
            assert forall|i: int, j: int| 0 <= i < j < less.len() implies (#[trigger] less[i]).0
                != (#[trigger] less[j]).0 by {
                assert(less[i] == h[i] && less[j] == h[j]);
            }
        }
        lemma_rows_cut_keeps(m, t, less);
        let a = rows_cut(m, t, less);
        let b = row_cut(a, t, hit);
        assert(is_row(a, t, hit.1)) by {
            assert forall|i: int| 0 <= i < less.len() implies (#[trigger] less[i]).1 != hit.1 by {
                assert(less[i] == h[i]);
                assert(h[i].0 != h[last].0);
            }
            assert(is_row(a, t, hit.1) == (is_row(m, t, hit.1) && forall|i: int|
                0 <= i < less.len() ==> (#[trigger] less[i]).1 != hit.1));
        }
        lemma_row_cut(a, t, hit);
        lemma_take_keeps(a, b, t, hit.1);
        lemma_take_local(a, b, t, hit.1);
        lemma_outside_trans(m, a, b, t);
        assert forall|r: Row| #[trigger] is_row(b, t, r) == (is_row(m, t, r) && forall|i: int|
            0 <= i < h.len() ==> (#[trigger] h[i]).1 != r) by {
            lemma_rows_after_take(a, b, t, hit.1, r);
            assert(is_row(a, t, r) == (is_row(m, t, r) && forall|i: int|
                0 <= i < less.len() ==> (#[trigger] less[i]).1 != r));
            if forall|i: int| 0 <= i < h.len() ==> (#[trigger] h[i]).1 != r {
                assert forall|i: int| 0 <= i < less.len() implies (#[trigger] less[i]).1 != r by {
                    assert(less[i] == h[i]);
                }
                assert(h[last].1 != r);
            }
            if (forall|i: int| 0 <= i < less.len() ==> (#[trigger] less[i]).1 != r) && r != hit.1 {
                assert forall|i: int| 0 <= i < h.len() implies (#[trigger] h[i]).1 != r by {
                    if i < last {
                        assert(less[i] == h[i]);
                    }
                }
            }
        }
    } else {
        assert(same_outside(m, m, t));
    }
}

/// Removing rows keeps a table and its indexes in step, and leaves every
/// other table alone.
pub proof fn law_del_keeps_indexes(st: State, name: Seq<char>, filter: Option<Term>, g: Math)
    requires
        st.data.dom().finite(),
        table_in(st.schema, name) is Ok,
        own_ids(table_in(st.schema, name)->Ok_0),
        kept(st.data, table_in(st.schema, name)->Ok_0),
        del_done(st, name, filter, g) is Ok,
    ensures
        kept(del_done(st, name, filter, g)->Ok_0.0.data, table_in(st.schema, name)->Ok_0),
        same_outside(
            st.data,
            del_done(st, name, filter, g)->Ok_0.0.data,
            table_in(st.schema, name)->Ok_0,
        ),
{
    let t = table_in(st.schema, name)->Ok_0;
    lemma_selected_hits(st, name, filter, g);
    lemma_rows_cut_keeps(st.data, t, selected(st, name, filter, g)->Ok_0.1);
}

// ---------------------------------------------------------------------
// set
// ---------------------------------------------------------------------

/// A value that does not move its entry is the same value.
proof fn lemma_stays(a: Val, b: Val)
    requires
        !moves(a, b),
    ensures
        a == b,
{
    match (a, b) {
        (Val::Float(x), Val::Float(y)) => {
            crate::encoding::lemma_float_key(x);
            crate::encoding::lemma_float_key(y);
        },
        (Val::Text(x), Val::Text(y)) => {
            if encode_utf8(x) == encode_utf8(y) {
                lemma_utf8_injective(x, y);
            }
        },
        _ => {
            reveal_strlit("int");
            reveal_strlit("float");
            assert("int"@.len() != "float"@.len());
        },
    }
}

/// A key column is never assigned to, so a row keeps its primary key.
pub proof fn lemma_assigned(t: Tab, old: Row, assigns: Seq<Assign>, n: int, g: Math)
    requires
        0 <= n <= assigns.len(),
        old.len() == t.columns.len(),
        forall|i: int| 0 <= i < assigns.len() ==> assign_ok(t, #[trigger] assigns[i]),
        assigned(t, old, assigns, n, g) is Ok,
    ensures
        assigned(t, old, assigns, n, g)->Ok_0.len() == t.columns.len(),
        forall|p: int|
            0 <= p < t.columns.len() && t.columns[p].key ==> #[trigger] assigned(
                t,
                old,
                assigns,
                n,
                g,
            )->Ok_0[p] == old[p],
    decreases n,
{
    if n > 0 {
        lemma_assigned(t, old, assigns, n - 1, g);
        assert(assign_ok(t, assigns[n - 1]));
        lemma_spot(t.columns, assigns[n - 1].column@);
    }
}

pub proof fn lemma_same_pk(t: Tab, old: Row, new: Row)
    requires
        forall|p: int| 0 <= p < t.columns.len() && t.columns[p].key ==> #[trigger] new[p] == old[p],
    ensures
        pk_of(t.columns, new) == pk_of(t.columns, old),
{
    lemma_key_spots(t.columns);
    assert(pk_of(t.columns, new) =~= pk_of(t.columns, old));
}

/// Moving the entries of a changed row: its old ones are gone, its new ones
/// are there.
proof fn lemma_entries_moved(m: Bytes, t: Tab, n: int, old: Row, new: Row, lim: int)
    requires
        own_ids(t),
        0 <= n <= t.columns.len(),
        pk_of(t.columns, new) == pk_of(t.columns, old),
        forall|pos: int| #[trigger]
            has_index(t, pos) ==> m.contains_key(entry_of(t, pos, old)) && m[entry_of(t, pos, old)]
                == Seq::<u8>::empty(),
        entries_moved(m, t.columns, n, old, new, lim) is Ok,
    ensures
        ({
            let b = entries_moved(m, t.columns, n, old, new, lim)->Ok_0;
            forall|k: Seq<u8>|
                #![trigger b.contains_key(k)]
                b.contains_key(k) == ((m.contains_key(k) && !entry_key(t, n, old, k)) || entry_key(
                    t,
                    n,
                    new,
                    k,
                )) && (b.contains_key(k) ==> b[k] == (if entry_key(t, n, new, k) {
                    Seq::<u8>::empty()
                } else {
                    m[k]
                }))
        }),
    decreases n,
{
    let b = entries_moved(m, t.columns, n, old, new, lim)->Ok_0;
    if n > 0 {
        lemma_entries_moved(m, t, n - 1, old, new, lim);
        let a = entries_moved(m, t.columns, n - 1, old, new, lim)->Ok_0;
        let p = n - 1;
        assert forall|k: Seq<u8>|
            #![trigger b.contains_key(k)]
            b.contains_key(k) == ((m.contains_key(k) && !entry_key(t, n, old, k)) || entry_key(
                t,
                n,
                new,
                k,
            )) && (b.contains_key(k) ==> b[k] == (if entry_key(t, n, new, k) {
                Seq::<u8>::empty()
            } else {
                m[k]
            })) by {
            assert(a.contains_key(k) == ((m.contains_key(k) && !entry_key(t, n - 1, old, k))
                || entry_key(t, n - 1, new, k)));
            lemma_entry_key_next(t, n, old, k);
            lemma_entry_key_next(t, n, new, k);
            if has_index(t, p) {
                let id = t.columns[p].index_id->0;
                lemma_entry_prefix(id, old[p], pk_of(t.columns, old));
                lemma_entry_prefix(id, new[p], pk_of(t.columns, old));
                if !moves(old[p], new[p]) {
                    lemma_stays(old[p], new[p]);
                }
                if range_at(id).is_prefix_of(k) {
                    lemma_not_earlier(t, p, old, k, id);
                    lemma_not_earlier(t, p, new, k, id);
                }
            }
        }
    } else {
        assert forall|k: Seq<u8>, r: Row| !(#[trigger] entry_key(t, n, r, k)) by {
        }
    }
}

/// An entry of one index is no entry of an earlier one.
proof fn lemma_not_earlier(t: Tab, p: int, row: Row, k: Seq<u8>, id: u64)
    requires
        own_ids(t),
        has_index(t, p),
        t.columns[p].index_id == Some(id),
        range_at(id).is_prefix_of(k),
    ensures
        !entry_key(t, p, row, k),
{
    if entry_key(t, p, row, k) {
        lemma_entry_place(t, p, row, k, id);
        let q = choose|q: int| #[trigger]
            has_index(t, q) && q < p && k == entry_of(t, q, row) && t.columns[q].index_id == Some(
                id,
            );
        assert(has_index(t, q) && has_index(t, p) && q != p);
    }
}

/// Changing a row is taking the old one away and adding the new one.
pub proof fn lemma_row_set(
    m: Bytes,
    t: Tab,
    h: Hit,
    assigns: Seq<Assign>,
    lim: int,
    g: Math,
)
    requires
        own_ids(t),
        kept(m, t),
        is_row(m, t, h.1),
        h.0 == row_at(t.id, pk_of(t.columns, h.1)),
        forall|i: int| 0 <= i < assigns.len() ==> assign_ok(t, #[trigger] assigns[i]),
        row_set(m, t, h, assigns, lim, g) is Ok,
    ensures
        ({
            let new = assigned(t, h.1, assigns, assigns.len() as int, g)->Ok_0;
            &&& new.len() == t.columns.len()
            &&& pk_of(t.columns, new) == pk_of(t.columns, h.1)
            &&& added(row_cut(m, t, h), row_set(m, t, h, assigns, lim, g)->Ok_0, t, new)
        }),
{
    let old = h.1;
    let n = t.columns.len() as int;
    let new = assigned(t, old, assigns, assigns.len() as int, g)->Ok_0;
    lemma_assigned(t, old, assigns, assigns.len() as int, g);
    lemma_same_pk(t, old, new);
    let c = row_cut(m, t, h);
    lemma_row_cut(m, t, h);
    let a = m.insert(h.0, enc_key(new));
    let b = row_set(m, t, h, assigns, lim, g)->Ok_0;
    lemma_row_key(t, old, old, h.0);
    lemma_row_key(t, old, new, h.0);
    assert forall|pos: int| #[trigger] has_index(t, pos) implies a.contains_key(
        entry_of(t, pos, old),
    ) && a[entry_of(t, pos, old)] == Seq::<u8>::empty() by {
        assert(index_kept(m, t, pos));
        assert(entry_key(t, n, old, entry_of(t, pos, old)));
    }
    lemma_entries_moved(a, t, n, old, new, lim);
    assert forall|k: Seq<u8>|
        #![trigger b.contains_key(k)]
        b.contains_key(k) == (c.contains_key(k) || k == h.0 || entry_key(t, n, new, k))
            && (b.contains_key(k) ==> b[k] == (if entry_key(t, n, new, k) {
            Seq::<u8>::empty()
        } else if k == h.0 {
            enc_key(new)
        } else {
            c[k]
        })) by {
        assert(c.contains_key(k) == (m.contains_key(k) && k != h.0 && !entry_key(t, n, old, k)));
        assert(b.contains_key(k) == ((a.contains_key(k) && !entry_key(t, n, old, k)) || entry_key(
            t,
            n,
            new,
            k,
        )));
    }
}

pub proof fn lemma_rows_set_keeps(
    m: Bytes,
    t: Tab,
    h: Seq<Hit>,
    assigns: Seq<Assign>,
    lim: int,
    g: Math,
)
    requires
        own_ids(t),
        kept(m, t),
        real_hits(m, t, h),
        forall|i: int| 0 <= i < assigns.len() ==> assign_ok(t, #[trigger] assigns[i]),
        rows_set(m, t, h, assigns, lim, g) is Ok,
    ensures
        kept(rows_set(m, t, h, assigns, lim, g)->Ok_0, t),
        same_outside(m, rows_set(m, t, h, assigns, lim, g)->Ok_0, t),
        forall|r: Row|
            is_row(m, t, r) && (forall|i: int|
                0 <= i < h.len() ==> (#[trigger] h[i]).0 != row_at(t.id, pk_of(t.columns, r)))
                ==> #[trigger] is_row(rows_set(m, t, h, assigns, lim, g)->Ok_0, t, r),
    decreases h.len(),
{
    if h.len() > 0 {
        let less = h.drop_last();
        let hit = h.last();
        let last = h.len() - 1;
        assert(h[last] == hit);
        assert(real_hits(m, t, less)) by {
            assert forall|i: int| 0 <= i < less.len() implies is_row(m, t, (#[trigger] less[i]).1)
                && less[i].0 == row_at(t.id, pk_of(t.columns, less[i].1)) by {
                assert(less[i] == h[i]);
            }
            assert forall|i: int, j: int| 0 <= i < j < less.len() implies (#[trigger] less[i]).0
                != (#[trigger] less[j]).0 by {
                assert(less[i] == h[i] && less[j] == h[j]);
            }
        }
        lemma_rows_set_keeps(m, t, less, assigns, lim, g);
        let a = rows_set(m, t, less, assigns, lim, g)->Ok_0;
        let b = row_set(a, t, hit, assigns, lim, g)->Ok_0;
        assert(is_row(a, t, hit.1)) by {
            assert forall|i: int| 0 <= i < less.len() implies (#[trigger] less[i]).0 != row_at(
                t.id,
                pk_of(t.columns, hit.1),
            ) by {
                assert(less[i] == h[i]);
                assert(h[i].0 != h[last].0);
            }
            assert(is_row(m, t, hit.1));
        }
        lemma_row_set(a, t, hit, assigns, lim, g);
        let new = assigned(t, hit.1, assigns, assigns.len() as int, g)->Ok_0;
        let c = row_cut(a, t, hit);
        lemma_row_cut(a, t, hit);
        lemma_take_keeps(a, c, t, hit.1);
        lemma_take_local(a, c, t, hit.1);
        assert(!c.contains_key(hit.0));
        lemma_add_keeps(c, b, t, new);
        lemma_add_local(c, b, t, new);
        lemma_outside_trans(m, a, c, t);
        lemma_outside_trans(m, c, b, t);
        assert forall|r: Row|
            is_row(m, t, r) && (forall|i: int|
                0 <= i < h.len() ==> (#[trigger] h[i]).0 != row_at(t.id, pk_of(t.columns, r)))
                implies #[trigger] is_row(b, t, r) by {
            assert forall|i: int| 0 <= i < less.len() implies (#[trigger] less[i]).0 != row_at(
                t.id,
                pk_of(t.columns, r),
            ) by {
                assert(less[i] == h[i]);
            }
            assert(is_row(a, t, r));
            assert(h[last].0 != row_at(t.id, pk_of(t.columns, r)));
            lemma_rows_after_take(a, c, t, hit.1, r);
            lemma_rows_after_add(c, b, t, new, r);
        }
    } else {
        assert(same_outside(m, m, t));
    }
}

/// Changing rows keeps a table and its indexes in step, and leaves every
/// other table alone.
pub proof fn law_set_keeps_indexes(
    st: State,
    name: Seq<char>,
    filter: Option<Term>,
    assigns: Seq<Assign>,
    lim: int,
    g: Math,
)
    requires
        st.data.dom().finite(),
        table_in(st.schema, name) is Ok,
        own_ids(table_in(st.schema, name)->Ok_0),
        kept(st.data, table_in(st.schema, name)->Ok_0),
        set_done(st, name, filter, assigns, lim, g) is Ok,
    ensures
        kept(
            set_done(st, name, filter, assigns, lim, g)->Ok_0.0.data,
            table_in(st.schema, name)->Ok_0,
        ),
        same_outside(
            st.data,
            set_done(st, name, filter, assigns, lim, g)->Ok_0.0.data,
            table_in(st.schema, name)->Ok_0,
        ),
{
    let t = table_in(st.schema, name)->Ok_0;
    lemma_selected_hits(st, name, filter, g);
    lemma_rows_set_keeps(st.data, t, selected(st, name, filter, g)->Ok_0.1, assigns, lim, g);
}

// ---------------------------------------------------------------------
// index
// ---------------------------------------------------------------------

/// Backfilling adds the entries of the rows and nothing else.
pub proof fn lemma_backfilled(m: Bytes, cs: Seq<Col>, id: u64, pos: int, h: Seq<Hit>, lim: int)
    requires
        backfilled(m, cs, id, pos, h, lim) is Ok,
    ensures
        ({
            let b = backfilled(m, cs, id, pos, h, lim)->Ok_0;
            forall|k: Seq<u8>|
                #![trigger b.contains_key(k)]
                b.contains_key(k) == (m.contains_key(k) || backfill_key(cs, id, pos, h, k))
                    && (b.contains_key(k) ==> b[k] == (if backfill_key(cs, id, pos, h, k) {
                    Seq::<u8>::empty()
                } else {
                    m[k]
                }))
        }),
    decreases h.len(),
{
    let b = backfilled(m, cs, id, pos, h, lim)->Ok_0;
    if h.len() > 0 {
        let less = h.drop_last();
        lemma_backfilled(m, cs, id, pos, less, lim);
        let a = backfilled(m, cs, id, pos, less, lim)->Ok_0;
        let last = h.len() - 1;
        let e = entry_at(id, h.last().1[pos], pk_of(cs, h.last().1));
        assert forall|k: Seq<u8>|
            #![trigger b.contains_key(k)]
            b.contains_key(k) == (m.contains_key(k) || backfill_key(cs, id, pos, h, k))
                && (b.contains_key(k) ==> b[k] == (if backfill_key(cs, id, pos, h, k) {
                Seq::<u8>::empty()
            } else {
                m[k]
            })) by {
            assert(a.contains_key(k) == (m.contains_key(k) || backfill_key(cs, id, pos, less, k)));
            if backfill_key(cs, id, pos, h, k) {
                let i = choose|i: int|
                    0 <= i < h.len() && k == entry_at(
                        id,
                        (#[trigger] h[i]).1[pos],
                        pk_of(cs, h[i].1),
                    );
                if i < last {
                    assert(less[i] == h[i]);
                    assert(backfill_key(cs, id, pos, less, k));
                }
            }
            if backfill_key(cs, id, pos, less, k) {
                let i = choose|i: int|
                    0 <= i < less.len() && k == entry_at(
                        id,
                        (#[trigger] less[i]).1[pos],
                        pk_of(cs, less[i].1),
                    );
                assert(h[i] == less[i]);
                assert(backfill_key(cs, id, pos, h, k));
            }
            if k == e {
                assert(h[last] == h.last());
                assert(backfill_key(cs, id, pos, h, k));
            }
        }
    } else {
        assert forall|k: Seq<u8>| !(#[trigger] backfill_key(cs, id, pos, h, k)) by {
        }
    }
}

/// Whether a key is the entry of one of some rows.
pub open spec fn backfill_key(cs: Seq<Col>, id: u64, pos: int, h: Seq<Hit>, k: Seq<u8>) -> bool {
    exists|i: int|
        0 <= i < h.len() && k == entry_at(id, (#[trigger] h[i]).1[pos], pk_of(cs, h[i].1))
}

/// A new index is in step with the rows from the start, where its id is
/// new: no object of the table has it and nothing stands under it.
pub proof fn law_new_index_is_kept(
    st: State,
    name: Seq<char>,
    column: Seq<char>,
    lim: int,
)
    requires
        st.data.dom().finite(),
        index_created(st, name, column, lim) is Ok,
        own_ids(table_in(st.schema, name)->Ok_0),
        kept(st.data, table_in(st.schema, name)->Ok_0),
        !owns(table_in(st.schema, name)->Ok_0, crate::effects::next_id(st.schema)->Ok_0),
        forall|k: Seq<u8>| #[trigger]
            st.data.contains_key(k) ==> !range_at(
                crate::effects::next_id(st.schema)->Ok_0,
            ).is_prefix_of(k),
    ensures
        ({
            let t = table_in(st.schema, name)->Ok_0;
            let id = crate::effects::next_id(st.schema)->Ok_0;
            let u = index_set(t, spot(t.columns, column)->0, id);
            &&& own_ids(u)
            &&& kept(index_created(st, name, column, lim)->Ok_0.data, u)
            &&& same_outside(st.data, index_created(st, name, column, lim)->Ok_0.data, u)
        }),
{
    let t = table_in(st.schema, name)->Ok_0;
    let id = crate::effects::next_id(st.schema)->Ok_0;
    let pos = spot(t.columns, column)->0;
    let u = index_set(t, pos, id);
    let m = st.data;
    let b = index_created(st, name, column, lim)->Ok_0.data;
    lemma_spot(t.columns, column);
    lemma_same_spots(t, pos, id);
    assert forall|p: int| #[trigger] has_index(u, p) implies p == pos || (has_index(t, p)
        && u.columns[p].index_id == t.columns[p].index_id) by {
    }
    assert(u.columns[pos].index_id == Some(id));
    assert(has_index(u, pos));
    assert(own_ids(u)) by {
        assert(owns(t, t.id));
        assert forall|p: int| #[trigger] has_index(u, p) implies u.columns[p].index_id != Some(u.id) by {
            if p != pos {
                assert(has_index(t, p));
            }
        }
        assert forall|i: int, j: int| #[trigger]
            has_index(u, i) && #[trigger] has_index(u, j) && i != j implies u.columns[i].index_id
            != u.columns[j].index_id by {
            if i != pos {
                assert(has_index(t, i));
                if u.columns[i].index_id == Some(id) {
                    assert(owns(t, id));
                }
            }
            if j != pos {
                assert(has_index(t, j));
                if u.columns[j].index_id == Some(id) {
                    assert(owns(t, id));
                }
            }
        }
    }
    lemma_listed(m, range_at(t.id));
    let raw = listing(m, range_at(t.id));
    let h = read_all(u.columns, raw)->Ok_0;
    lemma_same_reads(t, u, raw);
    lemma_read_all_hits(m, t, raw);
    lemma_backfilled(m, u.columns, id, pos, h, lim);
    lemma_backfill_keeps(m, b, t, u, pos, id, raw, h);
}

/// An index changes nothing about where rows stand.
pub proof fn lemma_same_spots(t: Tab, pos: int, id: u64)
    requires
        0 <= pos < t.columns.len(),
    ensures
        forall|row: Row| #[trigger]
            pk_of(index_set(t, pos, id).columns, row) == pk_of(t.columns, row),
        forall|b: Seq<u8>| #[trigger]
            row_of(index_set(t, pos, id).columns, b) == row_of(t.columns, b),
{
    let u = index_set(t, pos, id);
    lemma_key_spots_same(t.columns, u.columns);
    assert forall|row: Row| #[trigger] pk_of(u.columns, row) == pk_of(t.columns, row) by {
        assert(pk_of(u.columns, row) =~= pk_of(t.columns, row));
    }
}

proof fn lemma_key_spots_same(a: Seq<Col>, b: Seq<Col>)
    requires
        a.len() == b.len(),
        forall|i: int| 0 <= i < a.len() ==> (#[trigger] a[i]).key == b[i].key,
    ensures
        key_spots(a) == key_spots(b),
    decreases a.len(),
{
    if a.len() > 0 {
        assert(a.last() == a[a.len() - 1]);
        assert forall|i: int| 0 <= i < a.drop_last().len() implies (#[trigger] a.drop_last()[i]).key
            == b.drop_last()[i].key by {
            assert(a[i].key == b[i].key);
        }
        lemma_key_spots_same(a.drop_last(), b.drop_last());
        assert(a[a.len() - 1].key == b[b.len() - 1].key);
    }
}

proof fn lemma_same_reads(t: Tab, u: Tab, raw: Seq<Item>)
    requires
        forall|b: Seq<u8>| #[trigger] row_of(u.columns, b) == row_of(t.columns, b),
    ensures
        read_all(u.columns, raw) == read_all(t.columns, raw),
    decreases raw.len(),
{
    if raw.len() > 0 {
        lemma_same_reads(t, u, raw.drop_last());
    }
}

#[verifier::spinoff_prover]
#[verifier::rlimit(30)]
proof fn lemma_backfill_keeps(
    m: Bytes,
    b: Bytes,
    t: Tab,
    u: Tab,
    pos: int,
    id: u64,
    raw: Seq<Item>,
    h: Seq<Hit>,
)
    requires
        own_ids(u),
        kept(m, t),
        0 <= pos < t.columns.len(),
        t.columns[pos].index_id is None,
        u == index_set(t, pos, id),
        !owns(t, id),
        forall|row: Row| #[trigger] pk_of(u.columns, row) == pk_of(t.columns, row),
        forall|x: Seq<u8>| #[trigger] row_of(u.columns, x) == row_of(t.columns, x),
        forall|k: Seq<u8>| #[trigger] m.contains_key(k) ==> !range_at(id).is_prefix_of(k),
        forall|k: Seq<u8>| #[trigger]
            m.contains_key(k) && range_at(t.id).is_prefix_of(k) ==> has_key(raw, k),
        real_hits(m, t, h),
        h.len() == raw.len(),
        forall|i: int| 0 <= i < raw.len() ==> (#[trigger] h[i]).0 == raw[i].0,
        forall|k: Seq<u8>|
            #![trigger b.contains_key(k)]
            b.contains_key(k) == (m.contains_key(k) || backfill_key(u.columns, id, pos, h, k))
                && (b.contains_key(k) ==> b[k] == (if backfill_key(u.columns, id, pos, h, k) {
                Seq::<u8>::empty()
            } else {
                m[k]
            })),
    ensures
        kept(b, u),
        same_outside(m, b, u),
{
    assert forall|k: Seq<u8>| #[trigger] backfill_key(u.columns, id, pos, h, k) implies range_at(
        id,
    ).is_prefix_of(k) by {
        let i = choose|i: int|
            0 <= i < h.len() && k == entry_at(
                id,
                (#[trigger] h[i]).1[pos],
                pk_of(u.columns, h[i].1),
            );
        lemma_entry_prefix(id, h[i].1[pos], pk_of(u.columns, h[i].1));
    }
    assert(owns(t, t.id));
    assert(has_index(u, pos) && u.columns[pos].index_id == Some(id));
    assert(owns(u, id));
    assert forall|r: Row| #[trigger] is_row(b, u, r) == is_row(m, t, r) by {
        let k = row_at(t.id, pk_of(t.columns, r));
        lemma_entry_prefix(t.id, Val::Null, pk_of(t.columns, r));
        assert(pk_of(u.columns, r) == pk_of(t.columns, r));
        if backfill_key(u.columns, id, pos, h, k) {
            law_objects_share_no_key(t.id, id, k);
        }
        assert(b.contains_key(k) == (m.contains_key(k) || backfill_key(u.columns, id, pos, h, k)));
    }
    assert forall|k: Seq<u8>| #[trigger]
        b.contains_key(k) && range_at(u.id).is_prefix_of(k) implies (row_of(u.columns, b[k]) matches Some(
        r,
    ) && k == row_at(u.id, pk_of(u.columns, r))) by {
        if backfill_key(u.columns, id, pos, h, k) {
            law_objects_share_no_key(t.id, id, k);
        }
        assert(m.contains_key(k));
        assert(b[k] == m[k]);
    }
    assert forall|p: int| #[trigger] has_index(u, p) implies index_kept(b, u, p) by {
        let own = u.columns[p].index_id->0;
        if p == pos {
            assert forall|r: Row| #[trigger] is_row(b, u, r) implies b.contains_key(
                entry_of(u, p, r),
            ) && b[entry_of(u, p, r)] == Seq::<u8>::empty() by {
                assert(is_row(m, t, r));
                let k = row_at(t.id, pk_of(t.columns, r));
                lemma_entry_prefix(t.id, Val::Null, pk_of(t.columns, r));
                assert(has_key(raw, k));
                let i = choose|i: int| 0 <= i < raw.len() && (#[trigger] raw[i]).0 == k;
                assert(h[i].0 == k);
                law_keys_are_distinct(
                    t.id,
                    Val::Null,
                    pk_of(t.columns, h[i].1),
                    Val::Null,
                    pk_of(t.columns, r),
                );
                lemma_one_row(m, t, h[i].1, r);
                assert(pk_of(u.columns, r) == pk_of(t.columns, r));
                let e = entry_of(u, p, r);
                assert(h[i].1 == r);
                assert(e == entry_at(id, h[i].1[pos], pk_of(u.columns, h[i].1)));
                assert(backfill_key(u.columns, id, pos, h, e));
                assert(b.contains_key(e) && b[e] == Seq::<u8>::empty());
            }
            assert forall|k: Seq<u8>| #[trigger]
                b.contains_key(k) && range_at(own).is_prefix_of(k) implies exists|r: Row| #[trigger]
                is_row(b, u, r) && k == entry_of(u, p, r) by {
                assert(backfill_key(u.columns, id, pos, h, k));
                let i = choose|i: int|
                    0 <= i < h.len() && k == entry_at(
                        id,
                        (#[trigger] h[i]).1[pos],
                        pk_of(u.columns, h[i].1),
                    );
                assert(is_row(m, t, h[i].1));
                assert(is_row(b, u, h[i].1));
            }
        } else {
            assert(u.columns[p] == t.columns[p]);
            assert(has_index(t, p));
            assert(owns(t, own));
            assert(index_kept(m, t, p));
            assert forall|r: Row| #[trigger] is_row(b, u, r) implies b.contains_key(
                entry_of(u, p, r),
            ) && b[entry_of(u, p, r)] == Seq::<u8>::empty() by {
                assert(is_row(m, t, r));
                assert(pk_of(u.columns, r) == pk_of(t.columns, r));
                let e = entry_of(t, p, r);
                assert(e == entry_of(u, p, r));
                lemma_entry_prefix(own, r[p], pk_of(t.columns, r));
                if backfill_key(u.columns, id, pos, h, e) {
                    law_objects_share_no_key(own, id, e);
                }
                assert(m.contains_key(e) && m[e] == Seq::<u8>::empty());
                assert(!backfill_key(u.columns, id, pos, h, e));
                assert(b.contains_key(e) && b[e] == m[e]);
            }
            assert forall|k: Seq<u8>| #[trigger]
                b.contains_key(k) && range_at(own).is_prefix_of(k) implies exists|r: Row| #[trigger]
                is_row(b, u, r) && k == entry_of(u, p, r) by {
                if backfill_key(u.columns, id, pos, h, k) {
                    law_objects_share_no_key(own, id, k);
                }
                assert(m.contains_key(k));
                let r = choose|r: Row| #[trigger] is_row(m, t, r) && k == entry_of(t, p, r);
                assert(is_row(b, u, r));
                assert(pk_of(u.columns, r) == pk_of(t.columns, r));
            }
        }
    }
    assert forall|k: Seq<u8>| !(#[trigger] within(u, k)) implies m.contains_key(k)
        == b.contains_key(k) && (m.contains_key(k) ==> m[k] == b[k]) by {
        assert(!backfill_key(u.columns, id, pos, h, k));
        assert(b.contains_key(k) == (m.contains_key(k) || backfill_key(u.columns, id, pos, h, k)));
    }
}

// ---------------------------------------------------------------------
// tables
// ---------------------------------------------------------------------

/// A table with nothing under its ids is in step: it has no rows and no
/// entries.
pub proof fn law_empty_table_is_kept(m: Bytes, t: Tab)
    requires
        forall|k: Seq<u8>| #[trigger] m.contains_key(k) ==> !within(t, k),
    ensures
        kept(m, t),
{
    assert(owns(t, t.id));
    assert forall|r: Row| !(#[trigger] is_row(m, t, r)) by {
        let k = row_at(t.id, pk_of(t.columns, r));
        lemma_entry_prefix(t.id, Val::Null, pk_of(t.columns, r));
        assert(within(t, k));
    }
    assert forall|k: Seq<u8>| #[trigger] m.contains_key(k) implies !range_at(t.id).is_prefix_of(
        k,
    ) by {
        if range_at(t.id).is_prefix_of(k) {
            assert(within(t, k));
        }
    }
    assert forall|pos: int| #[trigger] has_index(t, pos) implies index_kept(m, t, pos) by {
        let id = t.columns[pos].index_id->0;
        assert(owns(t, id));
        assert forall|k: Seq<u8>| #[trigger] m.contains_key(k) implies !range_at(id).is_prefix_of(
            k,
        ) by {
            if range_at(id).is_prefix_of(k) {
                assert(within(t, k));
            }
        }
    }
}

/// Whether a key belongs to the index of one of the first `n` columns.
pub open spec fn index_key(cs: Seq<Col>, n: int, k: Seq<u8>) -> bool {
    exists|pos: int|
        0 <= pos < n && (#[trigger] cs[pos]).index_id is Some && range_at(
            cs[pos].index_id->0,
        ).is_prefix_of(k)
}

proof fn lemma_unindexed(m: Bytes, cs: Seq<Col>, n: int)
    requires
        0 <= n <= cs.len(),
    ensures
        forall|k: Seq<u8>|
            #![trigger unindexed(m, cs, n).contains_key(k)]
            unindexed(m, cs, n).contains_key(k) == (m.contains_key(k) && !index_key(cs, n, k)) && (
            unindexed(m, cs, n).contains_key(k) ==> unindexed(m, cs, n)[k] == m[k]),
    decreases n,
{
    let b = unindexed(m, cs, n);
    if n > 0 {
        lemma_unindexed(m, cs, n - 1);
        let a = unindexed(m, cs, n - 1);
        assert forall|k: Seq<u8>|
            #![trigger b.contains_key(k)]
            b.contains_key(k) == (m.contains_key(k) && !index_key(cs, n, k)) && (b.contains_key(k)
                ==> b[k] == m[k]) by {
            assert(a.contains_key(k) == (m.contains_key(k) && !index_key(cs, n - 1, k)));
            if index_key(cs, n, k) {
                let pos = choose|pos: int|
                    0 <= pos < n && (#[trigger] cs[pos]).index_id is Some && range_at(
                        cs[pos].index_id->0,
                    ).is_prefix_of(k);
                if pos < n - 1 {
                    assert(index_key(cs, n - 1, k));
                }
            }
            if index_key(cs, n - 1, k) {
                let pos = choose|pos: int|
                    0 <= pos < n - 1 && (#[trigger] cs[pos]).index_id is Some && range_at(
                        cs[pos].index_id->0,
                    ).is_prefix_of(k);
                assert(0 <= pos < n && cs[pos].index_id is Some);
                assert(index_key(cs, n, k));
            }
            if cs[n - 1].index_id is Some && range_at(cs[n - 1].index_id->0).is_prefix_of(k) {
                assert(index_key(cs, n, k));
            }
        }
    } else {
        assert forall|k: Seq<u8>| !(#[trigger] index_key(cs, n, k)) by {
        }
    }
}

/// Dropping a table takes everything of it away and leaves every other
/// table alone.
pub proof fn law_drop_takes_the_table_and_nothing_else(st: State, name: Seq<char>)
    requires
        table_dropped(st, name) is Ok,
    ensures
        same_outside(
            st.data,
            table_dropped(st, name)->Ok_0.data,
            table_in(st.schema, name)->Ok_0,
        ),
        forall|k: Seq<u8>| #[trigger]
            table_dropped(st, name)->Ok_0.data.contains_key(k) ==> !within(
                table_in(st.schema, name)->Ok_0,
                k,
            ),
{
    let t = table_in(st.schema, name)->Ok_0;
    let n = t.columns.len() as int;
    let a = without(st.data, range_at(t.id));
    let b = table_dropped(st, name)->Ok_0.data;
    lemma_unindexed(a, t.columns, n);
    assert(owns(t, t.id));
    assert forall|k: Seq<u8>| !(#[trigger] within(t, k)) implies st.data.contains_key(k)
        == b.contains_key(k) && (st.data.contains_key(k) ==> st.data[k] == b[k]) by {
        if index_key(t.columns, n, k) {
            let pos = choose|pos: int|
                0 <= pos < n && (#[trigger] t.columns[pos]).index_id is Some && range_at(
                    t.columns[pos].index_id->0,
                ).is_prefix_of(k);
            assert(has_index(t, pos));
            assert(owns(t, t.columns[pos].index_id->0));
        }
        if range_at(t.id).is_prefix_of(k) {
            assert(within(t, k));
        }
        assert(b.contains_key(k) == (a.contains_key(k) && !index_key(t.columns, n, k)));
    }
    assert forall|k: Seq<u8>| #[trigger] b.contains_key(k) implies !within(t, k) by {
        if within(t, k) {
            let id = choose|id: u64| #[trigger] owns(t, id) && range_at(id).is_prefix_of(k);
            if id != t.id {
                let pos = choose|pos: int| #[trigger] has_index(t, pos) && t.columns[pos].index_id
                    == Some(id);
                assert(t.columns[pos].index_id is Some);
                assert(index_key(t.columns, n, k));
            }
        }
    }
}

// ---------------------------------------------------------------------
// the check
// ---------------------------------------------------------------------

/// A table whose rows and indexes are in step passes the index check.
pub proof fn law_kept_tables_pass_the_check(m: Bytes, t: Tab)
    requires
        m.dom().finite(),
        kept(m, t),
    ensures
        table_indexed(m, t),
{
    let raw = listing(m, range_at(t.id));
    lemma_listed(m, range_at(t.id));
    lemma_read_all_hits(m, t, raw);
    let h = read_all(t.columns, raw)->Ok_0;
    assert forall|pos: int| 0 <= pos < t.columns.len() implies #[trigger] column_indexed(
        m,
        t,
        pos,
        h,
    ) by {
        if let Some(id) = t.columns[pos].index_id {
            assert(has_index(t, pos));
            assert(index_kept(m, t, pos));
            let actual = listing(m, range_at(id));
            let expected = entries_for(t.columns, pos, id, h);
            lemma_listed(m, range_at(id));
            assert forall|i: int| 0 <= i < expected.len() implies has_item(
                actual,
                #[trigger] expected[i],
            ) by {
                assert(is_row(m, t, h[i].1));
                let e = entry_of(t, pos, h[i].1);
                lemma_entry_prefix(id, h[i].1[pos], pk_of(t.columns, h[i].1));
                assert(has_key(actual, e));
                let j = choose|j: int| 0 <= j < actual.len() && (#[trigger] actual[j]).0 == e;
                assert(actual[j] == expected[i]);
            }
            assert forall|i: int| 0 <= i < actual.len() implies holds_key(
                expected,
                (#[trigger] actual[i]).0,
            ) by {
                let k = actual[i].0;
                let r = choose|r: Row| #[trigger] is_row(m, t, r) && k == entry_of(t, pos, r);
                let rk = row_at(t.id, pk_of(t.columns, r));
                lemma_entry_prefix(t.id, Val::Null, pk_of(t.columns, r));
                assert(has_key(raw, rk));
                let j = choose|j: int| 0 <= j < raw.len() && (#[trigger] raw[j]).0 == rk;
                assert(h[j].0 == rk);
                law_keys_are_distinct(
                    t.id,
                    Val::Null,
                    pk_of(t.columns, h[j].1),
                    Val::Null,
                    pk_of(t.columns, r),
                );
                lemma_one_row(m, t, h[j].1, r);
                assert(expected[j].0 == k);
            }
        }
    }
}

/// On a table that is in step, an index scan reaches exactly the rows with
/// the value it looks for. A value that goes on with a zero byte where the
/// wanted one ends stands under the same prefix; such values are left out.
pub proof fn law_index_scan_reaches_its_rows(m: Bytes, t: Tab, pos: int, v: Val, row: Row)
    requires
        m.dom().finite(),
        kept(m, t),
        has_index(t, pos),
        key_spots(t.columns).len() > 0,
        forall|r: Row| #[trigger]
            is_row(m, t, r) && probe_at(t.columns[pos].index_id->0, v).is_prefix_of(
                entry_of(t, pos, r),
            ) ==> r[pos] == v,
    ensures
        reached(m, t, Path::IndexScan(pos, t.columns[pos].index_id->0, v)) matches Ok(h) && (exists|
            i: int,
        |
            0 <= i < h.len() && (#[trigger] h[i]).1 == row) == (is_row(m, t, row) && row[pos] == v),
{
    let id = t.columns[pos].index_id->0;
    let s = listing(m, probe_at(id, v));
    lemma_listed(m, probe_at(id, v));
    assert forall|i: int| 0 <= i < s.len() implies m.contains_key((#[trigger] s[i]).0) && range_at(
        id,
    ).is_prefix_of(s[i].0) by {
        lemma_probe_range(id, v, s[i].0);
    }
    lemma_follow_ok(m, t, pos, s);
    lemma_follow_hits(m, t, pos, s);
    let h = follow_all(m, t, s)->Ok_0;
    if is_row(m, t, row) && row[pos] == v {
        assert(index_kept(m, t, pos));
        let e = entry_of(t, pos, row);
        lemma_entry_prefix(id, v, pk_of(t.columns, row));
        assert(has_key(s, e));
        let i = choose|i: int| 0 <= i < s.len() && (#[trigger] s[i]).0 == e;
        law_keys_are_distinct(
            id,
            h[i].1[pos],
            pk_of(t.columns, h[i].1),
            row[pos],
            pk_of(t.columns, row),
        );
        assert(is_row(m, t, h[i].1));
        lemma_one_row(m, t, h[i].1, row);
        assert(h[i].1 == row);
    }
    if exists|i: int| 0 <= i < h.len() && (#[trigger] h[i]).1 == row {
        let i = choose|i: int| 0 <= i < h.len() && (#[trigger] h[i]).1 == row;
        assert(s[i].0 == entry_of(t, pos, row));
        assert(is_row(m, t, row));
    }
}

pub proof fn lemma_follow_ok(m: Bytes, t: Tab, pos: int, entries: Seq<Item>)
    requires
        kept(m, t),
        has_index(t, pos),
        key_spots(t.columns).len() > 0,
        forall|i: int|
            0 <= i < entries.len() ==> m.contains_key((#[trigger] entries[i]).0) && range_at(
                t.columns[pos].index_id->0,
            ).is_prefix_of(entries[i].0),
    ensures
        follow_all(m, t, entries) is Ok,
    decreases entries.len(),
{
    if entries.len() > 0 {
        let less = entries.drop_last();
        assert forall|i: int| 0 <= i < less.len() implies m.contains_key((#[trigger] less[i]).0)
            && range_at(t.columns[pos].index_id->0).is_prefix_of(less[i].0) by {
            assert(less[i] == entries[i]);
        }
        lemma_follow_ok(m, t, pos, less);
        assert(entries[entries.len() - 1] == entries.last());
        let row = lemma_followed(m, t, pos, entries.last().0);
    }
}

} // verus!
