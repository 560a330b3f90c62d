//! What statements do to a database: data and schema before, data and
//! schema after.

use vstd::prelude::*;

use crate::ast::{Assign, ColumnDef, Expr, TableDef, Term};
use crate::bytes::{le_bytes, u64_at};
use crate::catalog::{
    def_ok, fits, seq_at, spot, table_at, table_from, table_of, table_stored, Col, Tab,
};
use crate::db::lookup;
use crate::encoding::{enc_key, Val};
use crate::exec_error::Fail;
use crate::plan::{planned, Path};
use crate::query::{fetched, reached, Hit};
use crate::rows::{entry_at, known, pk_of, range_at, row_at, row_names};
use crate::scan::Item;
use crate::sorting::Row;
use crate::source::table_in;
use crate::store::Bytes;
use crate::value_ops::{equal, fitted, no_names, type_word, worth, Math};

verus! {

/// A database inside a transaction: its two trees, and whether the
/// transaction has changed anything.
#[verifier::ext_equal]
pub struct State {
    pub data: Bytes,
    pub schema: Bytes,
    pub touched: bool,
}

pub type Next = core::result::Result<State, Fail>;

/// Keys the storage accepts.
pub open spec fn key_fits(k: Seq<u8>, lim: int) -> bool {
    0 < k.len() <= lim
}

/// A key written to the data.
pub open spec fn with_data(m: Bytes, k: Seq<u8>, v: Seq<u8>, lim: int) -> core::result::Result<
    Bytes,
    Fail,
> {
    if key_fits(k, lim) {
        Ok(m.insert(k, v))
    } else {
        Err(Fail::Storage)
    }
}

/// A key written to the schema.
pub open spec fn with_schema(st: State, k: Seq<u8>, v: Seq<u8>, lim: int) -> Next {
    if key_fits(k, lim) {
        Ok(State { schema: st.schema.insert(k, v), touched: true, ..st })
    } else {
        Err(Fail::Storage)
    }
}

/// Everything but what stands under a prefix.
pub open spec fn without(m: Bytes, prefix: Seq<u8>) -> Bytes {
    Map::new(|k: Seq<u8>| m.contains_key(k) && !prefix.is_prefix_of(k), |k: Seq<u8>| m[k])
}

// ---------------------------------------------------------------------
// ids
// ---------------------------------------------------------------------

/// The next object id.
pub open spec fn next_id(schema: Bytes) -> core::result::Result<u64, Fail> {
    match lookup(schema, seq_at()) {
        None => Ok(1),
        Some(b) => if b.len() == 8 && u64_at(b, 0) < u64::MAX {
            Ok(u64_at(b, 0))
        } else {
            Err(Fail::Exec)
        },
    }
}

/// The state after the next id was given out.
pub open spec fn id_taken(st: State, lim: int) -> Next {
    match next_id(st.schema) {
        Err(e) => Err(e),
        Ok(id) => with_schema(st, seq_at(), le_bytes((id + 1) as nat, 8), lim),
    }
}

// ---------------------------------------------------------------------
// definitions
// ---------------------------------------------------------------------

/// The first `n` columns of a definition, each with the index it asks for,
/// and the state after those indexes got their ids.
pub open spec fn indexed(st: State, t: Tab, ds: Seq<ColumnDef>, n: int, lim: int) -> core::result::Result<
    (State, Tab),
    Fail,
>
    decreases n,
{
    if n <= 0 {
        Ok((st, t))
    } else {
        match indexed(st, t, ds, n - 1, lim) {
            Err(e) => Err(e),
            Ok((s, u)) => if !ds[n - 1].index {
                Ok((s, u))
            } else {
                match id_taken(s, lim) {
                    Err(e) => Err(e),
                    Ok(s2) => Ok((s2, index_set(u, n - 1, next_id(s.schema)->Ok_0))),
                }
            },
        }
    }
}

/// A table with an index on one column.
pub open spec fn index_set(t: Tab, pos: int, id: u64) -> Tab {
    Tab {
        columns: t.columns.update(pos, Col { index_id: Some(id), ..t.columns[pos] }),
        ..t
    }
}

/// A table definition written down. One whose parts are too long to store
/// is refused.
pub open spec fn table_kept(st: State, t: Tab, lim: int) -> Next {
    if fits(t) {
        with_schema(st, table_at(t.name), table_stored(t), lim)
    } else {
        Err(Fail::Plan)
    }
}

pub open spec fn table_created(st: State, def: TableDef, lim: int) -> Next {
    if st.schema.contains_key(table_at(def.name@)) {
        Err(Fail::Plan)
    } else {
        match id_taken(st, lim) {
            Err(e) => Err(e),
            Ok(s) => if !def_ok(def.columns@) {
                Err(Fail::Plan)
            } else {
                match indexed(
                    s,
                    table_from(def, next_id(st.schema)->Ok_0),
                    def.columns@,
                    def.columns@.len() as int,
                    lim,
                ) {
                    Err(e) => Err(e),
                    Ok((s2, t)) => table_kept(s2, t, lim),
                }
            },
        }
    }
}

/// The data without the entries of the first `n` columns' indexes.
pub open spec fn unindexed(m: Bytes, cs: Seq<Col>, n: int) -> Bytes
    decreases n,
{
    if n <= 0 {
        m
    } else {
        match cs[n - 1].index_id {
            Some(id) => without(unindexed(m, cs, n - 1), range_at(id)),
            None => unindexed(m, cs, n - 1),
        }
    }
}

pub open spec fn table_dropped(st: State, name: Seq<char>) -> Next {
    match table_in(st.schema, name) {
        Err(e) => Err(e),
        Ok(t) => Ok(
            State {
                data: unindexed(
                    without(st.data, range_at(t.id)),
                    t.columns,
                    t.columns.len() as int,
                ),
                schema: st.schema.remove(table_at(name)),
                touched: true,
            },
        ),
    }
}

/// Entries of one index for some rows.
pub open spec fn backfilled(m: Bytes, cs: Seq<Col>, id: u64, pos: int, h: Seq<Hit>, lim: int) -> core::result::Result<
    Bytes,
    Fail,
>
    decreases h.len(),
{
    if h.len() == 0 {
        Ok(m)
    } else {
        match backfilled(m, cs, id, pos, h.drop_last(), lim) {
            Err(e) => Err(e),
            Ok(b) => with_data(
                b,
                entry_at(id, h.last().1[pos], pk_of(cs, h.last().1)),
                Seq::empty(),
                lim,
            ),
        }
    }
}

pub open spec fn index_created(
    st: State,
    name: Seq<char>,
    column: Seq<char>,
    lim: int,
) -> Next {
    match table_in(st.schema, name) {
        Err(e) => Err(e),
        Ok(t) => match spot(t.columns, column) {
            None => Err(Fail::Plan),
            Some(pos) => if t.columns[pos].index_id is Some {
                Err(Fail::Plan)
            } else {
                match id_taken(st, lim) {
                    Err(e) => Err(e),
                    Ok(s) => {
                        let id = next_id(st.schema)->Ok_0;
                        let u = index_set(t, pos, id);
                        match reached(s.data, u, Path::SeqScan) {
                            Err(e) => Err(e),
                            Ok(h) => match backfilled(s.data, u.columns, id, pos, h, lim) {
                                Err(e) => Err(e),
                                Ok(m) => table_kept(State { data: m, ..s }, u, lim),
                            },
                        }
                    },
                }
            },
        },
    }
}

/// The names of all tables, in key order.
pub open spec fn table_names(raw: Seq<Item>) -> core::result::Result<Seq<Seq<char>>, Fail>
    decreases raw.len(),
{
    if raw.len() == 0 {
        Ok(Seq::empty())
    } else {
        match table_names(raw.drop_last()) {
            Err(e) => Err(e),
            Ok(names) => match table_of(raw.last().1) {
                Some(t) => Ok(names.push(t.name)),
                None => Err(Fail::Exec),
            },
        }
    }
}

// ---------------------------------------------------------------------
// rows
// ---------------------------------------------------------------------

/// The index entries of a row written, for the first `n` columns.
pub open spec fn entries_put(m: Bytes, cs: Seq<Col>, n: int, row: Row, lim: int) -> core::result::Result<
    Bytes,
    Fail,
>
    decreases n,
{
    if n <= 0 {
        Ok(m)
    } else {
        match entries_put(m, cs, n - 1, row, lim) {
            Err(e) => Err(e),
            Ok(b) => match cs[n - 1].index_id {
                Some(id) => with_data(
                    b,
                    entry_at(id, row[n - 1], pk_of(cs, row)),
                    Seq::empty(),
                    lim,
                ),
                None => Ok(b),
            },
        }
    }
}

/// The index entries of a row taken away, for the first `n` columns.
pub open spec fn entries_cut(m: Bytes, cs: Seq<Col>, n: int, row: Row) -> Bytes
    decreases n,
{
    if n <= 0 {
        m
    } else {
        match cs[n - 1].index_id {
            Some(id) => entries_cut(m, cs, n - 1, row).remove(
                entry_at(id, row[n - 1], pk_of(cs, row)),
            ),
            None => entries_cut(m, cs, n - 1, row),
        }
    }
}

/// Whether an index entry has to move when `old` becomes `new`.
pub open spec fn moves(old: Val, new: Val) -> bool {
    equal(old, new) != Ok::<bool, Fail>(true) || type_word(old) != type_word(new)
}

/// The index entries of a changed row moved, for the first `n` columns.
pub open spec fn entries_moved(m: Bytes, cs: Seq<Col>, n: int, old: Row, new: Row, lim: int) -> core::result::Result<
    Bytes,
    Fail,
>
    decreases n,
{
    if n <= 0 {
        Ok(m)
    } else {
        match entries_moved(m, cs, n - 1, old, new, lim) {
            Err(e) => Err(e),
            Ok(b) => match cs[n - 1].index_id {
                Some(id) => if moves(old[n - 1], new[n - 1]) {
                    with_data(
                        b.remove(entry_at(id, old[n - 1], pk_of(cs, old))),
                        entry_at(id, new[n - 1], pk_of(cs, old)),
                        Seq::empty(),
                        lim,
                    )
                } else {
                    Ok(b)
                },
                None => Ok(b),
            },
        }
    }
}

/// The values a `put` gives, by column, after its first `n` fields.
pub open spec fn given(t: Tab, fields: Seq<(String, Expr)>, n: int, g: Math) -> core::result::Result<
    Seq<Option<Val>>,
    Fail,
>
    decreases n,
{
    if n <= 0 {
        Ok(Seq::new(t.columns.len(), |i: int| None))
    } else {
        match given(t, fields, n - 1, g) {
            Err(e) => Err(e),
            Ok(vs) => match spot(t.columns, fields[n - 1].0@) {
                None => Err(Fail::Plan),
                Some(p) => if vs[p] is Some {
                    Err(Fail::Plan)
                } else {
                    match worth(fields[n - 1].1@, no_names(), g) {
                        Err(e) => Err(e),
                        Ok(v) => match fitted(v, t.columns[p].ty, t.columns[p].nullable) {
                            Err(_) => Err(Fail::Exec),
                            Ok(w) => Ok(vs.update(p, Some(w))),
                        },
                    }
                },
            },
        }
    }
}

/// What stands in a column: what was given, else the default, else null
/// where that is allowed.
pub open spec fn filled(c: Col, v: Option<Val>) -> core::result::Result<Val, Fail> {
    match v {
        Some(x) => Ok(x),
        None => match c.default {
            Some(d) => Ok(d),
            None => if c.nullable {
                Ok(Val::Null)
            } else {
                Err(Fail::Exec)
            },
        },
    }
}

/// The row a `put` describes.
pub open spec fn built(t: Tab, fields: Seq<(String, Expr)>, g: Math) -> core::result::Result<
    Row,
    Fail,
> {
    match given(t, fields, fields.len() as int, g) {
        Err(e) => Err(e),
        Ok(vs) => if forall|i: int|
            0 <= i < t.columns.len() ==> filled(#[trigger] t.columns[i], vs[i]) is Ok {
            Ok(Seq::new(t.columns.len(), |i: int| filled(t.columns[i], vs[i])->Ok_0))
        } else {
            Err(Fail::Exec)
        },
    }
}

/// One row added: never over a row with the same key.
pub open spec fn row_put(m: Bytes, t: Tab, row: Row, lim: int) -> core::result::Result<Bytes, Fail> {
    let key = row_at(t.id, pk_of(t.columns, row));
    if m.contains_key(key) {
        Err(Fail::Exec)
    } else {
        match with_data(m, key, enc_key(row), lim) {
            Err(e) => Err(e),
            Ok(b) => entries_put(b, t.columns, t.columns.len() as int, row, lim),
        }
    }
}

/// The first `n` rows of a `put` added.
pub open spec fn rows_put(
    m: Bytes,
    t: Tab,
    rows: Seq<Vec<(String, Expr)>>,
    n: int,
    lim: int,
    g: Math,
) -> core::result::Result<Bytes, Fail>
    decreases n,
{
    if n <= 0 {
        Ok(m)
    } else {
        match rows_put(m, t, rows, n - 1, lim, g) {
            Err(e) => Err(e),
            Ok(b) => match built(t, rows[n - 1]@, g) {
                Err(e) => Err(e),
                Ok(row) => row_put(b, t, row, lim),
            },
        }
    }
}

pub open spec fn put_done(
    st: State,
    name: Seq<char>,
    rows: Seq<Vec<(String, Expr)>>,
    lim: int,
    g: Math,
) -> Next {
    match table_in(st.schema, name) {
        Err(e) => Err(e),
        Ok(t) => match rows_put(st.data, t, rows, rows.len() as int, lim, g) {
            Err(e) => Err(e),
            Ok(m) => Ok(State { data: m, touched: st.touched || rows.len() > 0, ..st }),
        },
    }
}

/// The rows a filter selects.
pub open spec fn selected(st: State, name: Seq<char>, filter: Option<Term>, g: Math) -> core::result::Result<
    (Tab, Seq<Hit>),
    Fail,
> {
    match table_in(st.schema, name) {
        Err(e) => Err(e),
        Ok(t) => if filter matches Some(f) && !known(t, f) {
            Err(Fail::Plan)
        } else {
            match planned(t, filter) {
                Err(e) => Err(e),
                Ok(w) => match fetched(st.data, t, w, g) {
                    Err(e) => Err(e),
                    Ok(h) => Ok((t, h)),
                },
            }
        },
    }
}

/// One row taken away.
pub open spec fn row_cut(m: Bytes, t: Tab, h: Hit) -> Bytes {
    entries_cut(m.remove(h.0), t.columns, t.columns.len() as int, h.1)
}

pub open spec fn rows_cut(m: Bytes, t: Tab, h: Seq<Hit>) -> Bytes
    decreases h.len(),
{
    if h.len() == 0 {
        m
    } else {
        row_cut(rows_cut(m, t, h.drop_last()), t, h.last())
    }
}

pub open spec fn del_done(st: State, name: Seq<char>, filter: Option<Term>, g: Math) -> core::result::Result<
    (State, nat),
    Fail,
> {
    match selected(st, name, filter, g) {
        Err(e) => Err(e),
        Ok((t, h)) => Ok(
            (
                State {
                    data: rows_cut(st.data, t, h),
                    touched: st.touched || h.len() > 0,
                    ..st
                },
                h.len(),
            ),
        ),
    }
}

/// An assignment that can be made: to a column that exists and is no key,
/// from columns that exist.
pub open spec fn assign_ok(t: Tab, a: Assign) -> bool {
    &&& spot(t.columns, a.column@) matches Some(p) && !t.columns[p].key
    &&& known(t, a.expr@)
}

/// A row after the first `n` assignments. Every one of them sees the row as
/// it was before.
pub open spec fn assigned(t: Tab, old: Row, assigns: Seq<Assign>, n: int, g: Math) -> core::result::Result<
    Row,
    Fail,
>
    decreases n,
{
    if n <= 0 {
        Ok(old)
    } else {
        match assigned(t, old, assigns, n - 1, g) {
            Err(e) => Err(e),
            Ok(row) => {
                let p = spot(t.columns, assigns[n - 1].column@)->0;
                match worth(assigns[n - 1].expr@, row_names(t, old), g) {
                    Err(e) => Err(e),
                    Ok(v) => match fitted(v, t.columns[p].ty, t.columns[p].nullable) {
                        Err(_) => Err(Fail::Exec),
                        Ok(w) => Ok(row.update(p, w)),
                    },
                }
            },
        }
    }
}

/// One row changed in place.
pub open spec fn row_set(m: Bytes, t: Tab, h: Hit, assigns: Seq<Assign>, lim: int, g: Math) -> core::result::Result<
    Bytes,
    Fail,
> {
    match assigned(t, h.1, assigns, assigns.len() as int, g) {
        Err(e) => Err(e),
        Ok(new) => match with_data(m, h.0, enc_key(new), lim) {
            Err(e) => Err(e),
            Ok(b) => entries_moved(b, t.columns, t.columns.len() as int, h.1, new, lim),
        },
    }
}

pub open spec fn rows_set(
    m: Bytes,
    t: Tab,
    h: Seq<Hit>,
    assigns: Seq<Assign>,
    lim: int,
    g: Math,
) -> core::result::Result<Bytes, Fail>
    decreases h.len(),
{
    if h.len() == 0 {
        Ok(m)
    } else {
        match rows_set(m, t, h.drop_last(), assigns, lim, g) {
            Err(e) => Err(e),
            Ok(b) => row_set(b, t, h.last(), assigns, lim, g),
        }
    }
}

pub open spec fn set_done(
    st: State,
    name: Seq<char>,
    filter: Option<Term>,
    assigns: Seq<Assign>,
    lim: int,
    g: Math,
) -> core::result::Result<(State, nat), Fail> {
    match table_in(st.schema, name) {
        Err(e) => Err(e),
        Ok(t) => if filter matches Some(f) && !known(t, f) {
            Err(Fail::Plan)
        } else if exists|i: int| 0 <= i < assigns.len() && !assign_ok(t, #[trigger] assigns[i]) {
            Err(Fail::Plan)
        } else {
            match selected(st, name, filter, g) {
                Err(e) => Err(e),
                Ok((_, h)) => match rows_set(st.data, t, h, assigns, lim, g) {
                    Err(e) => Err(e),
                    Ok(m) => Ok(
                        (State { data: m, touched: st.touched || h.len() > 0, ..st }, h.len()),
                    ),
                },
            }
        },
    }
}

} // verus!
