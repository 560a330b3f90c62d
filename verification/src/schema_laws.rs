//! What defining, dropping and indexing tables does, told by the tables the
//! catalog knows before and after.

use vstd::prelude::*;

use crate::ast::{ColumnDef, TableDef};
use crate::catalog::{
    law_table_decode_inverts_encode, law_table_keys_are_distinct, lemma_spot, seq_at, spot,
    table_at, table_from, table_of, tables_at, Col, Tab,
};
use crate::consistency::{
    backfill_key, is_row, lemma_backfilled, lemma_entry_prefix, lemma_listed, lemma_same_spots,
    law_objects_share_no_key, owns,
};
use crate::db::lookup;
use crate::effects::{
    id_taken, index_created, index_set, indexed, next_id, table_created, table_dropped,
    table_names, State,
};
use crate::encoding::Val;
use crate::exec_error::Fail;
use crate::healthy::{defined, first_free, healthy, lemma_catalog_keys, reads};
use crate::order::lex_lt;
use crate::plan::Path;
use crate::query::reached;
use crate::rows::{pk_of, range_at, row_at};
use crate::scan::{has_key, item_keys, Item};
use crate::sorting::Row;
use crate::source::{listing, table_in};
use crate::store::Bytes;
use crate::value_ops::fitted;

verus! {

/// Whether a column is as it was declared, its index aside.
pub open spec fn as_declared(c: Col, d: ColumnDef) -> bool {
    &&& c.name == d.name@
    &&& c.ty == d.ty
    &&& c.nullable == d.nullable
    &&& c.key == d.key
    &&& match d.default {
        None => c.default is None,
        Some(v) => c.default matches Some(w) && fitted(v@, d.ty, d.nullable) == Ok::<Val, Fail>(w),
    }
}

/// Whether two catalogs differ at most in the id counter.
spec fn but_counter(a: Bytes, b: Bytes) -> bool {
    forall|k: Seq<u8>| k != seq_at() ==> #[trigger] lookup(b, k) == lookup(a, k)
}

proof fn lemma_indexed_columns(st: State, t: Tab, ds: Seq<ColumnDef>, n: int, lim: int)
    requires
        0 <= n <= t.columns.len(),
        indexed(st, t, ds, n, lim) is Ok,
    ensures
        ({
            let (s, u) = indexed(st, t, ds, n, lim)->Ok_0;
            &&& s.data == st.data
            &&& but_counter(st.schema, s.schema)
            &&& u.id == t.id
            &&& u.name == t.name
            &&& u.columns.len() == t.columns.len()
            &&& forall|i: int|
                0 <= i < t.columns.len() ==> {
                    let c = #[trigger] u.columns[i];
                    let d = t.columns[i];
                    &&& c.name == d.name
                    &&& c.ty == d.ty
                    &&& c.nullable == d.nullable
                    &&& c.key == d.key
                    &&& c.default == d.default
                    &&& if i < n && ds[i].index {
                        c.index_id is Some
                    } else {
                        c.index_id == d.index_id
                    }
                }
        }),
    decreases n,
{
    if n > 0 {
        lemma_indexed_columns(st, t, ds, n - 1, lim);
        let (s, u) = indexed(st, t, ds, n - 1, lim)->Ok_0;
        if ds[n - 1].index {
            let s2 = id_taken(s, lim)->Ok_0;
            assert forall|k: Seq<u8>| k != seq_at() implies #[trigger] lookup(s2.schema, k)
                == lookup(st.schema, k) by {
                assert(lookup(s.schema, k) == lookup(st.schema, k));
            }
        }
    }
}

/// Defining a table makes the catalog know a table of that name, which it
/// did not know, with the columns as declared: an index where one was asked
/// for and nowhere else, no column twice, a key, and no key that may be
/// null. Every other table and all data stay.
pub proof fn law_a_defined_table_is_found(st: State, def: TableDef, lim: int)
    requires
        table_created(st, def, lim) is Ok,
    ensures
        ({
            let b = table_created(st, def, lim)->Ok_0;
            &&& table_in(st.schema, def.name@) == Err::<Tab, Fail>(Fail::Plan)
            &&& b.data == st.data
            &&& table_in(b.schema, def.name@) matches Ok(t) && {
                &&& t.name == def.name@
                &&& t.columns.len() == def.columns@.len()
                &&& forall|i: int|
                    0 <= i < t.columns.len() ==> as_declared(#[trigger] t.columns[i], def.columns@[i])
                &&& forall|i: int|
                    0 <= i < t.columns.len() ==> ((#[trigger] t.columns[i]).index_id is Some
                        <==> def.columns@[i].index)
                &&& forall|i: int, j: int|
                    0 <= i < j < t.columns.len() ==> (#[trigger] t.columns[i]).name != (
                    #[trigger] t.columns[j]).name
                &&& exists|i: int| 0 <= i < t.columns.len() && (#[trigger] t.columns[i]).key
                &&& forall|i: int|
                    0 <= i < t.columns.len() && (#[trigger] t.columns[i]).key
                        ==> !t.columns[i].nullable
            }
            &&& forall|n: Seq<char>|
                n != def.name@ ==> #[trigger] table_in(b.schema, n) == table_in(st.schema, n)
        }),
{
    let b = table_created(st, def, lim)->Ok_0;
    let s = id_taken(st, lim)->Ok_0;
    let t0 = table_from(def, next_id(st.schema)->Ok_0);
    let n = def.columns@.len() as int;
    lemma_indexed_columns(s, t0, def.columns@, n, lim);
    let (s2, t) = indexed(s, t0, def.columns@, n, lim)->Ok_0;
    assert(but_counter(st.schema, s.schema));
    assert(but_counter(st.schema, s2.schema)) by {
        assert forall|k: Seq<u8>| k != seq_at() implies #[trigger] lookup(s2.schema, k) == lookup(
            st.schema,
            k,
        ) by {
            assert(lookup(s.schema, k) == lookup(st.schema, k));
        }
    }
    law_table_decode_inverts_encode(t);
    assert(table_in(b.schema, def.name@) == Ok::<Tab, Fail>(t));
    assert forall|i: int| 0 <= i < t.columns.len() implies as_declared(
        #[trigger] t.columns[i],
        def.columns@[i],
    ) by {
        assert(t0.columns[i] == crate::catalog::declared(def.columns@[i]));
        assert(crate::catalog::column_ok(def.columns@[i]));
    }
    let k = choose|i: int| 0 <= i < def.columns@.len() && (#[trigger] def.columns@[i]).key;
    assert(as_declared(t.columns[k], def.columns@[k]));
    assert forall|i: int, j: int| 0 <= i < j < t.columns.len() implies (#[trigger] t.columns[i]).name
        != (#[trigger] t.columns[j]).name by {
        assert(def.columns@[i].name@ != def.columns@[j].name@);
        assert(as_declared(t.columns[i], def.columns@[i]));
        assert(as_declared(t.columns[j], def.columns@[j]));
    }
    assert forall|i: int| 0 <= i < t.columns.len() && (#[trigger] t.columns[i]).key implies !t.columns[i].nullable by {
        assert(as_declared(t.columns[i], def.columns@[i]));
        assert(crate::catalog::column_ok(def.columns@[i]));
    }
    assert forall|m: Seq<char>| m != def.name@ implies #[trigger] table_in(b.schema, m) == table_in(
        st.schema,
        m,
    ) by {
        law_table_keys_are_distinct(m, def.name@);
        lemma_catalog_keys(m);
        assert(lookup(s2.schema, table_at(m)) == lookup(st.schema, table_at(m)));
        assert(lookup(b.schema, table_at(m)) == lookup(s2.schema, table_at(m)));
    }
}

/// A new table is empty, and its id belongs to no other.
pub proof fn law_a_defined_table_is_empty(st: State, def: TableDef, u: Tab, r: Row, lim: int)
    requires
        healthy(st),
        table_created(st, def, lim) is Ok,
    ensures
        ({
            let b = table_created(st, def, lim)->Ok_0;
            &&& table_in(b.schema, def.name@) matches Ok(t) && !is_row(b.data, t, r) && (defined(
                st.schema,
                u,
            ) ==> !owns(u, t.id))
        }),
{
    let b = table_created(st, def, lim)->Ok_0;
    let s = id_taken(st, lim)->Ok_0;
    let id = next_id(st.schema)->Ok_0;
    let t0 = table_from(def, id);
    let n = def.columns@.len() as int;
    law_a_defined_table_is_found(st, def, lim);
    lemma_indexed_columns(s, t0, def.columns@, n, lim);
    let (s2, t) = indexed(s, t0, def.columns@, n, lim)->Ok_0;
    law_table_decode_inverts_encode(t);
    assert(table_in(b.schema, def.name@) == Ok::<Tab, Fail>(t));
    assert(id == first_free(st.schema));
    let k = row_at(t.id, pk_of(t.columns, r));
    lemma_entry_prefix(t.id, Val::Null, pk_of(t.columns, r));
    assert(range_at(id).is_prefix_of(k));
    if defined(st.schema, u) && owns(u, t.id) {
        assert(crate::healthy::given_out(st.schema, u));
    }
}

/// A definition that names a table the catalog knows, a column twice, no
/// key, a key that may be null or a default its column cannot take is
/// refused.
pub proof fn law_bad_definitions_are_refused(st: State, def: TableDef, lim: int)
    requires
        table_in(st.schema, def.name@) is Ok || (exists|i: int, j: int|
            0 <= i < j < def.columns@.len() && (#[trigger] def.columns@[i]).name@ == (
            #[trigger] def.columns@[j]).name@) || (forall|i: int|
            0 <= i < def.columns@.len() ==> !(#[trigger] def.columns@[i]).key) || (exists|i: int|
            0 <= i < def.columns@.len() && (#[trigger] def.columns@[i]).key
                && def.columns@[i].nullable) || (exists|i: int|
            0 <= i < def.columns@.len() && ((#[trigger] def.columns@[i]).default matches Some(v)
                && fitted(v@, def.columns@[i].ty, def.columns@[i].nullable) is Err)),
    ensures
        table_created(st, def, lim) is Err,
{
    if table_created(st, def, lim) is Ok {
        law_a_defined_table_is_found(st, def, lim);
        let t = table_in(table_created(st, def, lim)->Ok_0.schema, def.name@)->Ok_0;
        assert forall|i: int| 0 <= i < def.columns@.len() implies as_declared(
            t.columns[i],
            #[trigger] def.columns@[i],
        ) by {
            assert(as_declared(t.columns[i], def.columns@[i]));
        }
        let k = choose|i: int| 0 <= i < t.columns.len() && (#[trigger] t.columns[i]).key;
        assert(as_declared(t.columns[k], def.columns@[k]));
    }
}

/// A dropped table is unknown, and every other table is what it was.
pub proof fn law_a_dropped_table_is_gone(st: State, name: Seq<char>, other: Seq<char>)
    requires
        table_dropped(st, name) is Ok,
    ensures
        table_in(st.schema, name) is Ok,
        table_in(table_dropped(st, name)->Ok_0.schema, name) == Err::<Tab, Fail>(Fail::Plan),
        other != name ==> table_in(table_dropped(st, name)->Ok_0.schema, other) == table_in(
            st.schema,
            other,
        ),
{
    law_table_keys_are_distinct(name, other);
}

/// A table that is not there cannot be dropped.
pub proof fn law_unknown_tables_are_not_dropped(st: State, name: Seq<char>)
    requires
        !st.schema.contains_key(table_at(name)),
    ensures
        table_dropped(st, name) == Err::<State, Fail>(Fail::Plan),
{
}

/// Indexing a column gives that column an index it did not have and changes
/// nothing else: the columns, the rows and the other tables stay.
pub proof fn law_an_index_changes_no_row(
    st: State,
    name: Seq<char>,
    column: Seq<char>,
    t: Tab,
    lim: int,
)
    requires
        healthy(st),
        table_in(st.schema, name) == Ok::<Tab, Fail>(t),
        index_created(st, name, column, lim) is Ok,
    ensures
        ({
            let b = index_created(st, name, column, lim)->Ok_0;
            &&& table_in(b.schema, name) matches Ok(u) && {
                &&& u.name == t.name
                &&& u.id == t.id
                &&& u.columns.len() == t.columns.len()
                &&& forall|i: int|
                    0 <= i < t.columns.len() ==> {
                        let c = #[trigger] u.columns[i];
                        let d = t.columns[i];
                        &&& c.name == d.name
                        &&& c.ty == d.ty
                        &&& c.nullable == d.nullable
                        &&& c.key == d.key
                        &&& c.default == d.default
                        &&& c.index_id == d.index_id || (d.name == column && d.index_id is None
                            && c.index_id is Some)
                    }
                &&& exists|i: int|
                    0 <= i < t.columns.len() && (#[trigger] t.columns[i]).name == column
                        && t.columns[i].index_id is None && u.columns[i].index_id is Some
                &&& forall|r: Row| #[trigger] is_row(b.data, u, r) <==> is_row(st.data, t, r)
            }
            &&& forall|n: Seq<char>|
                n != name ==> #[trigger] table_in(b.schema, n) == table_in(st.schema, n)
        }),
{
    let b = index_created(st, name, column, lim)->Ok_0;
    let pos = spot(t.columns, column)->0;
    let id = next_id(st.schema)->Ok_0;
    let u = index_set(t, pos, id);
    let s = id_taken(st, lim)->Ok_0;
    lemma_spot(t.columns, column);
    lemma_catalog_keys(name);
    assert(st.schema.contains_key(table_at(name)));
    law_table_keys_are_distinct(name, t.name);
    assert(t.name == name);
    assert(defined(st.schema, t));
    law_table_decode_inverts_encode(u);
    assert(table_in(b.schema, name) == Ok::<Tab, Fail>(u));
    assert(t.columns[pos].name == column);
    assert(u.columns[pos].index_id is Some);
    let h = reached(s.data, u, Path::SeqScan)->Ok_0;
    lemma_backfilled(s.data, u.columns, id, pos, h, lim);
    lemma_same_spots(t, pos, id);
    assert(owns(t, t.id));
    assert(crate::healthy::given_out(st.schema, t));
    assert forall|r: Row| #[trigger] is_row(b.data, u, r) <==> is_row(st.data, t, r) by {
        let k = row_at(t.id, pk_of(t.columns, r));
        assert(pk_of(u.columns, r) == pk_of(t.columns, r));
        lemma_entry_prefix(t.id, Val::Null, pk_of(t.columns, r));
        if backfill_key(u.columns, id, pos, h, k) {
            let i = choose|i: int|
                0 <= i < h.len() && k == crate::rows::entry_at(
                    id,
                    (#[trigger] h[i]).1[pos],
                    pk_of(u.columns, h[i].1),
                );
            lemma_entry_prefix(id, h[i].1[pos], pk_of(u.columns, h[i].1));
            law_objects_share_no_key(t.id, id, k);
        }
        assert(b.data.contains_key(k) == st.data.contains_key(k));
    }
    assert forall|n: Seq<char>| n != name implies #[trigger] table_in(b.schema, n) == table_in(
        st.schema,
        n,
    ) by {
        law_table_keys_are_distinct(n, name);
        lemma_catalog_keys(n);
    }
}

/// A column the table does not have, or that has an index, gets none.
pub proof fn law_no_index_twice(st: State, name: Seq<char>, column: Seq<char>, t: Tab, lim: int)
    requires
        table_in(st.schema, name) == Ok::<Tab, Fail>(t),
        forall|i: int|
            0 <= i < t.columns.len() && (#[trigger] t.columns[i]).name == column
                ==> t.columns[i].index_id is Some,
    ensures
        index_created(st, name, column, lim) == Err::<State, Fail>(Fail::Plan),
{
    lemma_spot(t.columns, column);
}

proof fn lemma_names(raw: Seq<Item>)
    requires
        forall|i: int| 0 <= i < raw.len() ==> table_of((#[trigger] raw[i]).1) is Some,
    ensures
        table_names(raw) matches Ok(names) && names.len() == raw.len() && forall|i: int|
            0 <= i < raw.len() ==> #[trigger] names[i] == table_of(raw[i].1)->0.name,
    decreases raw.len(),
{
    if raw.len() > 0 {
        let less = raw.drop_last();
        assert forall|i: int| 0 <= i < less.len() implies table_of((#[trigger] less[i]).1) is Some by {
            assert(less[i] == raw[i]);
        }
        lemma_names(less);
        assert(raw[raw.len() - 1] == raw.last());
        let names = table_names(raw)->Ok_0;
        assert forall|i: int| 0 <= i < raw.len() implies #[trigger] names[i] == table_of(
            raw[i].1,
        )->0.name by {
            if i < less.len() {
                assert(less[i] == raw[i]);
                assert(table_names(less)->Ok_0[i] == names[i]);
            }
        }
    }
}

/// Showing the tables shows the name of every table the catalog knows, each
/// once, in the order of their keys.
pub proof fn law_every_table_is_shown(schema: Bytes)
    requires
        reads(schema),
        schema.dom().finite(),
    ensures
        table_names(listing(schema, tables_at())) matches Ok(names) && {
            &&& forall|n: Seq<char>| #[trigger]
                names.contains(n) <==> table_in(schema, n) is Ok
            &&& forall|i: int, j: int|
                0 <= i < j < names.len() ==> lex_lt(
                    table_at(#[trigger] names[i]),
                    table_at(#[trigger] names[j]),
                )
        },
{
    let raw = listing(schema, tables_at());
    crate::consistency::lemma_listing_lists(schema, tables_at());
    lemma_listed(schema, tables_at());
    assert forall|i: int| 0 <= i < raw.len() implies table_of((#[trigger] raw[i]).1) is Some
        && raw[i].0 == table_at(table_of(raw[i].1)->0.name) by {
        assert(schema.contains_key(raw[i].0));
    }
    lemma_names(raw);
    let names = table_names(raw)->Ok_0;
    assert forall|n: Seq<char>| #[trigger] names.contains(n) <==> table_in(schema, n) is Ok by {
        if names.contains(n) {
            let i = choose|i: int| 0 <= i < names.len() && names[i] == n;
            assert(raw[i].0 == table_at(n));
        }
        if table_in(schema, n) is Ok {
            lemma_catalog_keys(n);
            assert(schema.contains_key(table_at(n)));
            assert(has_key(raw, table_at(n)));
            let i = choose|i: int| 0 <= i < raw.len() && (#[trigger] raw[i]).0 == table_at(n);
            assert(raw[i].0 == table_at(names[i]));
            law_table_keys_are_distinct(n, names[i]);
            assert(names[i] == n);
        }
    }
    assert forall|i: int, j: int| 0 <= i < j < names.len() implies lex_lt(
        table_at(#[trigger] names[i]),
        table_at(#[trigger] names[j]),
    ) by {
        assert(raw[i].0 == table_at(names[i]) && raw[j].0 == table_at(names[j]));
        assert(item_keys(raw)[i] == raw[i].0 && item_keys(raw)[j] == raw[j].0);
        assert(lex_lt(raw[i].0, raw[j].0));
    }
}

} // verus!
