//! Every statement keeps a whole database in step.
//!
//! A database is healthy when every definition in the catalog can be read
//! and stands under its own name, no two objects share an id, every id was
//! given out by the counter, nothing stands under an id that was not, and
//! every table is in step with its indexes. An empty database is healthy,
//! statements keep it so, and a healthy database passes the index check.

use vstd::prelude::*;
use vstd::utf8::encode_utf8;

use crate::ast::{Assign, BinaryOp, ColumnDef, Expr, Statement, TableDef, Term};
use crate::bytes::{le_bytes, u64_at};
use crate::catalog::{
    law_table_decode_inverts_encode, law_table_keys_are_distinct, lemma_spot, seq_at, spot,
    table_at, table_from, table_of, tables_at, Col, Tab,
};
use crate::consistency::{
    apart, has_index, kept, law_del_keeps_indexes, law_drop_takes_the_table_and_nothing_else,
    law_empty_table_is_kept, law_kept_tables_pass_the_check, law_new_index_is_kept,
    law_objects_share_no_key, law_put_keeps_indexes, law_set_keeps_indexes,
    law_tables_do_not_touch_each_other, lemma_listed, own_ids, owns, same_outside, within,
};
use crate::effects::{
    backfilled, del_done, entries_cut, entries_moved, entries_put, id_taken, index_created,
    index_set, indexed, next_id, put_done, rows_cut, rows_put, rows_set, selected, set_done,
    table_created, table_dropped, unindexed, without, State,
};
use crate::exec_error::ExecError;
use crate::encoding::{enc_key, escaped, law_tuple_prefix, Val};
use crate::query::{reached, Hit};
use crate::plan::Path;
use crate::rows::range_at;
use crate::sorting::Row;
use crate::db::lookup;
use crate::source::{listing, table_in};
use crate::session::{is_history, is_past, key_limit, replayed, start, Session};
use crate::statement::{did, Output};
use crate::storage::Storage;
use crate::store::Bytes;
use crate::value_ops::{Math, Shown};
use crate::verify::{all_indexed, table_indexed};

verus! {

/// Whether the catalog holds a definition, under its own name.
pub open spec fn defined(schema: Bytes, t: Tab) -> bool {
    &&& schema.contains_key(table_at(t.name))
    &&& table_of(schema[table_at(t.name)]) == Some(t)
}

/// The first id that was not given out, where the counter can be read.
pub open spec fn first_free(schema: Bytes) -> int {
    match lookup(schema, seq_at()) {
        None => 1,
        Some(b) => u64_at(b, 0) as int,
    }
}

/// Whether the catalog reads: a counter of the right width, and under the
/// tables nothing but definitions.
pub open spec fn reads(schema: Bytes) -> bool {
    &&& lookup(schema, seq_at()) matches Some(b) ==> b.len() == 8
    &&& forall|k: Seq<u8>| #[trigger]
        schema.contains_key(k) && tables_at().is_prefix_of(k) ==> table_of(schema[k]) is Some && k
            == table_at(table_of(schema[k])->0.name)
}

/// Whether every id of a table was given out.
pub open spec fn given_out(schema: Bytes, t: Tab) -> bool {
    forall|id: u64| #[trigger] owns(t, id) ==> id < first_free(schema)
}

/// Whether nothing stands under an id from `n` on.
pub open spec fn clear_from(m: Bytes, n: int) -> bool {
    forall|k: Seq<u8>, id: u64| #[trigger]
        m.contains_key(k) && n <= id ==> !(#[trigger] range_at(id).is_prefix_of(k))
}

/// Whether a database is in step throughout.
pub open spec fn healthy(st: State) -> bool {
    &&& st.data.dom().finite()
    &&& st.schema.dom().finite()
    &&& reads(st.schema)
    &&& clear_from(st.data, first_free(st.schema))
    &&& forall|t: Tab| #[trigger]
        defined(st.schema, t) ==> own_ids(t) && given_out(st.schema, t) && kept(st.data, t)
    &&& forall|t: Tab, u: Tab| #[trigger]
        defined(st.schema, t) && #[trigger] defined(st.schema, u) && t.name != u.name ==> apart(t, u)
}

// ---------------------------------------------------------------------
// the catalog
// ---------------------------------------------------------------------

proof fn lemma_escaped_len(d: Seq<u8>)
    ensures
        d.len() < escaped(d).len() <= 2 * d.len() + 1,
    decreases d.len(),
{
    if d.len() > 0 {
        lemma_escaped_len(d.skip(1));
    }
}

proof fn lemma_escaped_plain(d: Seq<u8>)
    requires
        forall|i: int| 0 <= i < d.len() ==> #[trigger] d[i] != 0,
    ensures
        escaped(d).len() == d.len() + 1,
    decreases d.len(),
{
    if d.len() > 0 {
        lemma_escaped_plain(d.skip(1));
    }
}

/// The counter does not stand among the tables, and every table does.
pub proof fn lemma_catalog_keys(name: Seq<char>)
    ensures
        !tables_at().is_prefix_of(seq_at()),
        tables_at().is_prefix_of(table_at(name)),
        table_at(name) != seq_at(),
{
    law_table_keys_are_distinct(name, name);
    let head = seq![Val::Text("table"@)];
    assert(seq![Val::Text("table"@), Val::Text(name)] =~= head + seq![Val::Text(name)]);
    law_tuple_prefix(head, seq![Val::Text(name)]);
    reveal_strlit("table");
    reveal_strlit("seq");
    vstd::utf8::is_ascii_chars_encode_utf8("table"@);
    vstd::utf8::is_ascii_chars_encode_utf8("seq"@);
    let b = encode_utf8("seq"@);
    assert(b.len() == 3);
    assert(b[0] == "seq"@[0] as u8 && b[1] == "seq"@[1] as u8 && b[2] == "seq"@[2] as u8);
    lemma_escaped_plain(b);
    lemma_escaped_len(encode_utf8("table"@));
    let one = seq![Val::Text("seq"@)];
    assert(one.skip(1) =~= Seq::<Val>::empty());
    assert(head.skip(1) =~= Seq::<Val>::empty());
    assert(enc_key(Seq::<Val>::empty()) =~= Seq::<u8>::empty());
    assert(enc_key(one) =~= crate::encoding::enc(one[0]));
    assert(enc_key(head) =~= crate::encoding::enc(head[0]));
    assert(seq_at().len() == 5);
    assert(tables_at().len() >= 7);
}

/// A table that is found is defined, under the name it was found by.
proof fn lemma_found(st: State, name: Seq<char>)
    requires
        reads(st.schema),
        table_in(st.schema, name) is Ok,
    ensures
        defined(st.schema, table_in(st.schema, name)->Ok_0),
        (table_in(st.schema, name)->Ok_0).name == name,
{
    let t = table_in(st.schema, name)->Ok_0;
    let k = table_at(name);
    lemma_catalog_keys(name);
    assert(st.schema.contains_key(k));
    law_table_keys_are_distinct(name, t.name);
}

// ---------------------------------------------------------------------
// finite data
// ---------------------------------------------------------------------

proof fn lemma_entries_put_finite(m: Bytes, cs: Seq<Col>, n: int, row: Row, lim: int)
    requires
        m.dom().finite(),
    ensures
        entries_put(m, cs, n, row, lim) matches Ok(b) ==> b.dom().finite(),
    decreases n,
{
    if n > 0 {
        lemma_entries_put_finite(m, cs, n - 1, row, lim);
    }
}

proof fn lemma_rows_put_finite(
    m: Bytes,
    t: Tab,
    rows: Seq<Vec<(String, Expr)>>,
    n: int,
    lim: int,
    g: Math,
)
    requires
        m.dom().finite(),
    ensures
        rows_put(m, t, rows, n, lim, g) matches Ok(b) ==> b.dom().finite(),
    decreases n,
{
    if n > 0 {
        lemma_rows_put_finite(m, t, rows, n - 1, lim, g);
        if let Ok(b) = rows_put(m, t, rows, n - 1, lim, g) {
            if let Ok(row) = crate::effects::built(t, rows[n - 1]@, g) {
                let key = crate::rows::row_at(t.id, crate::rows::pk_of(t.columns, row));
                lemma_entries_put_finite(
                    b.insert(key, enc_key(row)),
                    t.columns,
                    t.columns.len() as int,
                    row,
                    lim,
                );
            }
        }
    }
}

proof fn lemma_entries_cut_finite(m: Bytes, cs: Seq<Col>, n: int, row: Row)
    requires
        m.dom().finite(),
    ensures
        entries_cut(m, cs, n, row).dom().finite(),
    decreases n,
{
    if n > 0 {
        lemma_entries_cut_finite(m, cs, n - 1, row);
    }
}

proof fn lemma_rows_cut_finite(m: Bytes, t: Tab, h: Seq<Hit>)
    requires
        m.dom().finite(),
    ensures
        rows_cut(m, t, h).dom().finite(),
    decreases h.len(),
{
    if h.len() > 0 {
        lemma_rows_cut_finite(m, t, h.drop_last());
        lemma_entries_cut_finite(
            rows_cut(m, t, h.drop_last()).remove(h.last().0),
            t.columns,
            t.columns.len() as int,
            h.last().1,
        );
    }
}

proof fn lemma_entries_moved_finite(
    m: Bytes,
    cs: Seq<Col>,
    n: int,
    old_row: Row,
    new_row: Row,
    lim: int,
)
    requires
        m.dom().finite(),
    ensures
        entries_moved(m, cs, n, old_row, new_row, lim) matches Ok(b) ==> b.dom().finite(),
    decreases n,
{
    if n > 0 {
        lemma_entries_moved_finite(m, cs, n - 1, old_row, new_row, lim);
    }
}

proof fn lemma_rows_set_finite(
    m: Bytes,
    t: Tab,
    h: Seq<Hit>,
    assigns: Seq<Assign>,
    lim: int,
    g: Math,
)
    requires
        m.dom().finite(),
    ensures
        rows_set(m, t, h, assigns, lim, g) matches Ok(b) ==> b.dom().finite(),
    decreases h.len(),
{
    if h.len() > 0 {
        lemma_rows_set_finite(m, t, h.drop_last(), assigns, lim, g);
        if let Ok(b) = rows_set(m, t, h.drop_last(), assigns, lim, g) {
            if let Ok(new_row) = crate::effects::assigned(
                t,
                h.last().1,
                assigns,
                assigns.len() as int,
                g,
            ) {
                lemma_entries_moved_finite(
                    b.insert(h.last().0, enc_key(new_row)),
                    t.columns,
                    t.columns.len() as int,
                    h.last().1,
                    new_row,
                    lim,
                );
            }
        }
    }
}

proof fn lemma_backfilled_finite(
    m: Bytes,
    cs: Seq<Col>,
    id: u64,
    pos: int,
    h: Seq<Hit>,
    lim: int,
)
    requires
        m.dom().finite(),
    ensures
        backfilled(m, cs, id, pos, h, lim) matches Ok(b) ==> b.dom().finite(),
    decreases h.len(),
{
    if h.len() > 0 {
        lemma_backfilled_finite(m, cs, id, pos, h.drop_last(), lim);
    }
}

proof fn lemma_without_finite(m: Bytes, prefix: Seq<u8>)
    requires
        m.dom().finite(),
    ensures
        without(m, prefix).dom().finite(),
{
    assert(without(m, prefix).dom().subset_of(m.dom()));
    vstd::set_lib::lemma_len_subset(without(m, prefix).dom(), m.dom());
}

proof fn lemma_unindexed_finite(m: Bytes, cs: Seq<Col>, n: int)
    requires
        m.dom().finite(),
    ensures
        unindexed(m, cs, n).dom().finite(),
    decreases n,
{
    if n > 0 {
        lemma_unindexed_finite(m, cs, n - 1);
        if let Some(id) = cs[n - 1].index_id {
            lemma_without_finite(unindexed(m, cs, n - 1), range_at(id));
        }
    }
}

// ---------------------------------------------------------------------
// rows
// ---------------------------------------------------------------------

/// A change within one table, where its definition stays, leaves nothing
/// under an id that was not given out.
proof fn lemma_clear(m: Bytes, n: Bytes, t: Tab, free: int)
    requires
        clear_from(m, free),
        same_outside(m, n, t),
        forall|id: u64| #[trigger] owns(t, id) ==> id < free,
    ensures
        clear_from(n, free),
{
    assert forall|k: Seq<u8>, id: u64| #[trigger] n.contains_key(k) && free <= id implies !(
    #[trigger] range_at(id).is_prefix_of(k)) by {
        if range_at(id).is_prefix_of(k) {
            if within(t, k) {
                let own = choose|own: u64| #[trigger]
                    owns(t, own) && range_at(own).is_prefix_of(k);
                law_objects_share_no_key(own, id, k);
            } else {
                assert(m.contains_key(k));
            }
        }
    }
}

/// A change within one table that keeps it, keeps the database.
proof fn lemma_change(st: State, b: State, t: Tab)
    requires
        healthy(st),
        b.schema == st.schema,
        b.data.dom().finite(),
        defined(st.schema, t),
        kept(b.data, t),
        same_outside(st.data, b.data, t),
    ensures
        healthy(b),
{
    lemma_clear(st.data, b.data, t, first_free(st.schema));
    assert forall|u: Tab| #[trigger] defined(b.schema, u) implies own_ids(u) && given_out(
        b.schema,
        u,
    ) && kept(b.data, u) by {
        assert(defined(st.schema, u));
        if u.name != t.name {
            assert(apart(t, u));
            law_tables_do_not_touch_each_other(st.data, b.data, t, u);
        } else {
            assert(u == t);
        }
    }
    assert forall|u: Tab, v: Tab| #[trigger]
        defined(b.schema, u) && #[trigger] defined(b.schema, v) && u.name != v.name implies apart(
        u,
        v,
    ) by {
        assert(defined(st.schema, u) && defined(st.schema, v));
    }
}

/// Adding rows keeps a database healthy.
pub proof fn law_put_keeps_health(
    st: State,
    name: Seq<char>,
    rows: Seq<Vec<(String, Expr)>>,
    lim: int,
    g: Math,
)
    requires
        healthy(st),
        put_done(st, name, rows, lim, g) is Ok,
    ensures
        healthy(put_done(st, name, rows, lim, g)->Ok_0),
{
    let t = table_in(st.schema, name)->Ok_0;
    lemma_found(st, name);
    law_put_keeps_indexes(st, name, rows, lim, g);
    lemma_rows_put_finite(st.data, t, rows, rows.len() as int, lim, g);
    lemma_change(st, put_done(st, name, rows, lim, g)->Ok_0, t);
}

/// Removing rows keeps a database healthy.
pub proof fn law_del_keeps_health(st: State, name: Seq<char>, filter: Option<Term>, g: Math)
    requires
        healthy(st),
        del_done(st, name, filter, g) is Ok,
    ensures
        healthy(del_done(st, name, filter, g)->Ok_0.0),
{
    let t = table_in(st.schema, name)->Ok_0;
    lemma_found(st, name);
    law_del_keeps_indexes(st, name, filter, g);
    lemma_rows_cut_finite(st.data, t, selected(st, name, filter, g)->Ok_0.1);
    lemma_change(st, del_done(st, name, filter, g)->Ok_0.0, t);
}

/// Changing rows keeps a database healthy.
pub proof fn law_set_keeps_health(
    st: State,
    name: Seq<char>,
    filter: Option<Term>,
    assigns: Seq<Assign>,
    lim: int,
    g: Math,
)
    requires
        healthy(st),
        set_done(st, name, filter, assigns, lim, g) is Ok,
    ensures
        healthy(set_done(st, name, filter, assigns, lim, g)->Ok_0.0),
{
    let t = table_in(st.schema, name)->Ok_0;
    lemma_found(st, name);
    law_set_keeps_indexes(st, name, filter, assigns, lim, g);
    lemma_rows_set_finite(
        st.data,
        t,
        selected(st, name, filter, g)->Ok_0.1,
        assigns,
        lim,
        g,
    );
    lemma_change(st, set_done(st, name, filter, assigns, lim, g)->Ok_0.0, t);
}

// ---------------------------------------------------------------------
// definitions
// ---------------------------------------------------------------------

/// Whether two catalogs hold the same definitions, and ids were at most
/// given out from one to the other.
spec fn same_tables(a: Bytes, b: Bytes) -> bool {
    &&& reads(b)
    &&& b.dom().finite()
    &&& first_free(a) <= first_free(b)
    &&& forall|t: Tab| #[trigger] defined(b, t) == defined(a, t)
}

/// Giving out an id changes the counter and nothing else.
proof fn lemma_id_taken(st: State, lim: int)
    requires
        reads(st.schema),
        st.schema.dom().finite(),
        id_taken(st, lim) is Ok,
    ensures
        id_taken(st, lim)->Ok_0.data == st.data,
        same_tables(st.schema, id_taken(st, lim)->Ok_0.schema),
        next_id(st.schema) is Ok,
        next_id(st.schema)->Ok_0 == first_free(st.schema),
        first_free(id_taken(st, lim)->Ok_0.schema) == first_free(st.schema) + 1,
{
    let id = next_id(st.schema)->Ok_0;
    let s = id_taken(st, lim)->Ok_0;
    let b = le_bytes((id + 1) as nat, 8);
    crate::bytes::lemma_field64((id + 1) as u64);
    assert(b.subrange(0, 8) =~= b);
    assert(s.schema == st.schema.insert(seq_at(), b));
    assert forall|k: Seq<u8>| #[trigger]
        s.schema.contains_key(k) && tables_at().is_prefix_of(k) implies table_of(s.schema[k]) is Some
        && k == table_at(table_of(s.schema[k])->0.name) by {
        lemma_catalog_keys(Seq::empty());
        assert(k != seq_at());
        assert(st.schema.contains_key(k));
    }
    assert forall|t: Tab| #[trigger] defined(s.schema, t) == defined(st.schema, t) by {
        lemma_catalog_keys(t.name);
    }
}

/// The indexes of a new table get ids of their own.
proof fn lemma_indexed(st: State, t: Tab, ds: Seq<ColumnDef>, n: int, lim: int)
    requires
        reads(st.schema),
        st.schema.dom().finite(),
        0 <= n <= t.columns.len(),
        forall|pos: int| !(#[trigger] has_index(t, pos)),
        indexed(st, t, ds, n, lim) is Ok,
    ensures
        ({
            let (s, u) = indexed(st, t, ds, n, lim)->Ok_0;
            &&& s.data == st.data
            &&& same_tables(st.schema, s.schema)
            &&& u.id == t.id
            &&& u.name == t.name
            &&& u.columns.len() == t.columns.len()
            &&& forall|pos: int| #[trigger]
                has_index(u, pos) ==> pos < n && first_free(st.schema)
                    <= u.columns[pos].index_id->0 < first_free(s.schema)
            &&& forall|i: int, j: int| #[trigger]
                has_index(u, i) && #[trigger] has_index(u, j) && i != j ==> u.columns[i].index_id
                    != u.columns[j].index_id
        }),
    decreases n,
{
    if n > 0 {
        lemma_indexed(st, t, ds, n - 1, lim);
        let (s, u) = indexed(st, t, ds, n - 1, lim)->Ok_0;
        if ds[n - 1].index {
            lemma_id_taken(s, lim);
            let s2 = id_taken(s, lim)->Ok_0;
            let id = next_id(s.schema)->Ok_0;
            let v = index_set(u, n - 1, id);
            assert forall|x: Tab| #[trigger] defined(s2.schema, x) == defined(st.schema, x) by {
                assert(defined(s.schema, x) == defined(st.schema, x));
            }
            assert forall|pos: int| #[trigger] has_index(v, pos) implies pos < n && first_free(
                st.schema,
            ) <= v.columns[pos].index_id->0 < first_free(s2.schema) by {
                if pos != n - 1 {
                    assert(has_index(u, pos));
                }
            }
            assert forall|i: int, j: int| #[trigger]
                has_index(v, i) && #[trigger] has_index(v, j) && i != j implies v.columns[i].index_id
                != v.columns[j].index_id by {
                if i != n - 1 {
                    assert(has_index(u, i));
                }
                if j != n - 1 {
                    assert(has_index(u, j));
                }
            }
        }
    }
}

/// A definition written over nothing or over its older self keeps a
/// database healthy, where its table is in step and shares no object.
proof fn lemma_written(st: State, mid: Bytes, b: State, t: Tab)
    requires
        healthy(st),
        same_tables(st.schema, mid),
        crate::catalog::fits(t),
        b.schema == mid.insert(table_at(t.name), crate::catalog::table_stored(t)),
        b.data.dom().finite(),
        own_ids(t),
        kept(b.data, t),
        forall|id: u64| #[trigger] owns(t, id) ==> id < first_free(mid),
        same_outside(st.data, b.data, t),
        forall|u: Tab| #[trigger] defined(st.schema, u) && u.name != t.name ==> apart(t, u),
    ensures
        healthy(b),
{
    let at = table_at(t.name);
    law_table_decode_inverts_encode(t);
    lemma_catalog_keys(t.name);
    assert(lookup(b.schema, seq_at()) == lookup(mid, seq_at()));
    assert(first_free(b.schema) == first_free(mid));
    assert(reads(b.schema)) by {
        assert forall|k: Seq<u8>| #[trigger]
            b.schema.contains_key(k) && tables_at().is_prefix_of(k) implies table_of(
            b.schema[k],
        ) is Some && k == table_at(table_of(b.schema[k])->0.name) by {
            if k != at {
                assert(mid.contains_key(k));
            }
        }
    }
    assert(clear_from(st.data, first_free(mid)));
    lemma_clear(st.data, b.data, t, first_free(mid));
    assert forall|u: Tab| #[trigger] defined(b.schema, u) implies u == t || (u.name != t.name
        && defined(st.schema, u)) by {
        if u.name != t.name {
            law_table_keys_are_distinct(u.name, t.name);
            assert(defined(mid, u));
            assert(defined(st.schema, u));
        }
    }
    assert forall|u: Tab| #[trigger] defined(b.schema, u) implies own_ids(u) && given_out(
        b.schema,
        u,
    ) && kept(b.data, u) by {
        if u != t {
            assert(defined(st.schema, u));
            law_tables_do_not_touch_each_other(st.data, b.data, t, u);
            assert(given_out(st.schema, u));
        }
    }
    assert forall|u: Tab, v: Tab| #[trigger]
        defined(b.schema, u) && #[trigger] defined(b.schema, v) && u.name != v.name implies apart(
        u,
        v,
    ) by {
        if u == t {
            assert(defined(st.schema, v));
        } else if v == t {
            assert(defined(st.schema, u));
            assert(apart(t, u));
            assert forall|id: u64| !(#[trigger] owns(u, id) && owns(t, id)) by {
                assert(!(owns(t, id) && owns(u, id)));
            }
        } else {
            assert(defined(st.schema, u) && defined(st.schema, v));
        }
    }
}

/// Defining a table keeps a database healthy.
pub proof fn law_table_keeps_health(st: State, def: TableDef, lim: int)
    requires
        healthy(st),
        table_created(st, def, lim) is Ok,
    ensures
        healthy(table_created(st, def, lim)->Ok_0),
{
    let b = table_created(st, def, lim)->Ok_0;
    lemma_id_taken(st, lim);
    let s = id_taken(st, lim)->Ok_0;
    let id = next_id(st.schema)->Ok_0;
    let t0 = table_from(def, id);
    let n = def.columns@.len() as int;
    assert forall|pos: int| !(#[trigger] has_index(t0, pos)) by {}
    lemma_indexed(s, t0, def.columns@, n, lim);
    let (s2, t) = indexed(s, t0, def.columns@, n, lim)->Ok_0;
    assert forall|u: Tab| #[trigger] defined(s2.schema, u) == defined(st.schema, u) by {
        assert(defined(s.schema, u) == defined(st.schema, u));
    }
    assert forall|x: u64| #[trigger] owns(t, x) implies id <= x < first_free(s2.schema) by {
        if x != t.id {
            let pos = choose|pos: int| #[trigger]
                has_index(t, pos) && t.columns[pos].index_id == Some(x);
            assert(has_index(t, pos));
        }
    }
    assert forall|k: Seq<u8>| #[trigger] st.data.contains_key(k) implies !within(t, k) by {
        if within(t, k) {
            let own = choose|own: u64| #[trigger] owns(t, own) && range_at(own).is_prefix_of(k);
            assert(id <= own);
            assert(!range_at(own).is_prefix_of(k));
        }
    }
    law_empty_table_is_kept(st.data, t);
    assert forall|u: Tab| #[trigger] defined(st.schema, u) && u.name != t.name implies apart(
        t,
        u,
    ) by {
        assert(given_out(st.schema, u));
        assert forall|x: u64| !(#[trigger] owns(t, x) && owns(u, x)) by {
            if owns(u, x) {
                assert(x < first_free(st.schema));
            }
        }
    }
    assert(same_outside(st.data, b.data, t));
    lemma_written(st, s2.schema, b, t);
}

/// Making an index keeps a database healthy.
pub proof fn law_index_keeps_health(st: State, name: Seq<char>, column: Seq<char>, lim: int)
    requires
        healthy(st),
        index_created(st, name, column, lim) is Ok,
    ensures
        healthy(index_created(st, name, column, lim)->Ok_0),
{
    let b = index_created(st, name, column, lim)->Ok_0;
    let t = table_in(st.schema, name)->Ok_0;
    lemma_found(st, name);
    lemma_id_taken(st, lim);
    let s = id_taken(st, lim)->Ok_0;
    let id = next_id(st.schema)->Ok_0;
    let pos = spot(t.columns, column)->0;
    lemma_spot(t.columns, column);
    let u = index_set(t, pos, id);
    assert(given_out(st.schema, t));
    assert(!owns(t, id));
    assert forall|k: Seq<u8>| #[trigger] st.data.contains_key(k) implies !range_at(
        id,
    ).is_prefix_of(k) by {}
    law_new_index_is_kept(st, name, column, lim);
    lemma_backfilled_finite(
        s.data,
        u.columns,
        id,
        pos,
        reached(s.data, u, Path::SeqScan)->Ok_0,
        lim,
    );
    assert forall|x: u64| #[trigger] owns(u, x) implies x == id || owns(t, x) by {
        if x != u.id {
            let p = choose|p: int| #[trigger] has_index(u, p) && u.columns[p].index_id == Some(x);
            if p != pos {
                assert(has_index(t, p));
            }
        }
    }
    assert forall|v: Tab| #[trigger] defined(st.schema, v) && v.name != u.name implies apart(
        u,
        v,
    ) by {
        assert(apart(t, v));
        assert(given_out(st.schema, v));
        assert forall|x: u64| !(#[trigger] owns(u, x) && owns(v, x)) by {
            if owns(u, x) && owns(v, x) {
                assert(x < first_free(st.schema));
                assert(owns(t, x));
            }
        }
    }
    lemma_written(st, s.schema, b, u);
}

/// Dropping a table keeps a database healthy.
pub proof fn law_drop_keeps_health(st: State, name: Seq<char>)
    requires
        healthy(st),
        table_dropped(st, name) is Ok,
    ensures
        healthy(table_dropped(st, name)->Ok_0),
{
    let b = table_dropped(st, name)->Ok_0;
    let t = table_in(st.schema, name)->Ok_0;
    lemma_found(st, name);
    lemma_catalog_keys(name);
    law_drop_takes_the_table_and_nothing_else(st, name);
    lemma_without_finite(st.data, range_at(t.id));
    lemma_unindexed_finite(
        without(st.data, range_at(t.id)),
        t.columns,
        t.columns.len() as int,
    );
    assert(lookup(b.schema, seq_at()) == lookup(st.schema, seq_at()));
    assert(given_out(st.schema, t));
    lemma_clear(st.data, b.data, t, first_free(st.schema));
    assert(reads(b.schema)) by {
        assert forall|k: Seq<u8>| #[trigger]
            b.schema.contains_key(k) && tables_at().is_prefix_of(k) implies table_of(
            b.schema[k],
        ) is Some && k == table_at(table_of(b.schema[k])->0.name) by {
            assert(st.schema.contains_key(k));
        }
    }
    assert forall|u: Tab| #[trigger] defined(b.schema, u) implies defined(st.schema, u) && u.name
        != t.name by {}
    assert forall|u: Tab| #[trigger] defined(b.schema, u) implies own_ids(u) && given_out(
        b.schema,
        u,
    ) && kept(b.data, u) by {
        assert(defined(st.schema, u));
        assert(apart(t, u));
        law_tables_do_not_touch_each_other(st.data, b.data, t, u);
        assert(given_out(st.schema, u));
    }
    assert forall|u: Tab, v: Tab| #[trigger]
        defined(b.schema, u) && #[trigger] defined(b.schema, v) && u.name != v.name implies apart(
        u,
        v,
    ) by {
        assert(defined(st.schema, u) && defined(st.schema, v));
    }
}

/// Every statement keeps a database healthy: whatever runs, no index ever
/// falls out of step with its rows.
pub proof fn law_statements_keep_health(st: State, s: Statement, lim: int, g: Math, f: Shown)
    requires
        healthy(st),
        did(st, s, lim, g, f) is Ok,
    ensures
        healthy(did(st, s, lim, g, f)->Ok_0.0),
{
    reveal(did);
    match s {
        Statement::TableDef(def) => law_table_keeps_health(st, def, lim),
        Statement::DropTable { name } => law_drop_keeps_health(st, name@),
        Statement::Put { table, rows } => law_put_keeps_health(st, table@, rows@, lim, g),
        Statement::Update { table, filter, assigns } => law_set_keeps_health(
            st,
            table@,
            crate::ast::opt_term(filter),
            assigns@,
            lim,
            g,
        ),
        Statement::Del { table, filter } => law_del_keeps_health(
            st,
            table@,
            crate::ast::opt_term(filter),
            g,
        ),
        Statement::IndexDef { table, column } => law_index_keeps_health(st, table@, column@, lim),
        _ => {},
    }
}

// ---------------------------------------------------------------------
// the check
// ---------------------------------------------------------------------

/// A healthy database passes the index check.
pub proof fn law_healthy_passes_the_check(st: State)
    requires
        healthy(st),
    ensures
        all_indexed(st.data, st.schema),
{
    let raw = listing(st.schema, tables_at());
    lemma_listed(st.schema, tables_at());
    assert forall|i: int| 0 <= i < raw.len() implies table_of((#[trigger] raw[i]).1) is Some
        && table_indexed(st.data, table_of(raw[i].1)->0) by {
        let k = raw[i].0;
        assert(st.schema.contains_key(k));
        let t = table_of(raw[i].1)->0;
        assert(defined(st.schema, t));
        law_kept_tables_pass_the_check(st.data, t);
    }
}

/// A list of statements keeps a database healthy.
pub proof fn law_transactions_keep_health(
    st: State,
    list: Seq<Statement>,
    n: int,
    lim: int,
    g: Math,
    f: Shown,
)
    requires
        healthy(st),
        replayed(st, list, n, lim, g, f) is Ok,
    ensures
        healthy(replayed(st, list, n, lim, g, f)->Ok_0),
    decreases n,
{
    if n > 0 {
        law_transactions_keep_health(st, list, n - 1, lim, g, f);
        law_statements_keep_health(
            replayed(st, list, n - 1, lim, g, f)->Ok_0,
            list[n - 1],
            lim,
            g,
            f,
        );
    }
}

/// A session keeps the branch it is on healthy: after any statement that
/// worked and stays on the branch, the database passes the index check if
/// it was healthy before.
pub proof fn law_sessions_keep_health<
    S: Storage,
    M: Fn(BinaryOp, u64, u64) -> u64,
    T: Fn(u64) -> String,
>(
    a: Session<S, M, T>,
    b: Session<S, M, T>,
    s: Statement,
    r: core::result::Result<Output, ExecError>,
)
    requires
        a.sound(),
        a.acts(&b, s, r),
        r is Ok,
        !is_history(s),
        healthy(start(a.db)),
    ensures
        healthy(start(b.db)),
        all_indexed(b.db.data(), b.db.catalog()),
{
    let g = a.floats.math();
    let f = a.floats.shown();
    let lim = key_limit(a.db);
    let st = start(a.db);
    if s is Commit {
        let list = a.open()->0;
        law_transactions_keep_health(st, list, list.len() as int, lim, g, f);
    } else if a.open() is None && !(s is Begin) && !(s is Rollback) && !is_past(s) {
        law_statements_keep_health(st, s, lim, g, f);
    }
    law_healthy_passes_the_check(start(b.db));
}

/// An empty database is healthy.
pub proof fn law_empty_is_healthy(st: State)
    requires
        st.data == Map::<Seq<u8>, Seq<u8>>::empty(),
        st.schema == Map::<Seq<u8>, Seq<u8>>::empty(),
    ensures
        healthy(st),
{
    assert(st.data.dom() =~= Set::empty());
    assert(st.schema.dom() =~= Set::empty());
}

} // verus!
