//! One statement's execution inside a write transaction.

use vstd::prelude::*;

use crate::ast::{ref_term, Assign, BinaryOp, ColumnDef, Expr, TableDef};
use crate::bytes::{get_u64, le_bytes, lemma_pow256_values, put_le};
use crate::catalog::{
    col_fits, def_ok, fits, seq_key, spot, table_at, table_from, table_key, table_stored, tables_at,
    tables_prefix, Col, Column, Tab, Table,
};
use crate::effects::{
    assign_ok, assigned, backfilled, built, del_done, entries_cut, entries_moved, entries_put,
    filled, given, id_taken, index_created, index_set, indexed, moves, next_id, put_done, row_put,
    row_set, rows_cut, rows_put, rows_set, selected, set_done, table_created, table_dropped,
    table_kept, table_names, unindexed, without, Next, State,
};
use crate::cost::{
    create_cost, del_cost, drop_cost, index_cost, index_entries, lemma_index_entries, lemma_once_more,
    lemma_put_bytes, lemma_set_bytes, put_bytes, put_cost, set_bytes, set_cost,
};
use crate::encoding::{enc_key, encode_key, vals, Val, Value};
use crate::exec_error::{ExecError, Fail};
use crate::pager::ReadPages;
use crate::plan::{plan_access, Access, AccessPlan, Path};
use crate::prefix::{law_successor_covers_prefix, successor};
use crate::pretty;
use crate::query::{fetch_rows, full_rows, hits, reached, Fetched, Hit};
use crate::rows::{
    copy_values, index_entry_key, no_column, object_prefix, pk_of, range_at, row_key, row_pk,
    validate_columns, RowScope,
};
use crate::scan::{has_key, lists, Item};
use crate::sorting::Row;
use crate::source::{items, listing, load_table_from, table_in, Source};
use crate::storage::Storage;
use crate::store::Bytes;
use crate::strings::{join2, join3, join_all, owned, same_text, texts};
use crate::tree::in_range;
use crate::txn::{ends, failure, on_data, within, Run};
use crate::value_ops::{coerce, eval, type_of, values_equal, Floats, Math, NoScope};

verus! {

impl<'db, S: Storage> Run<'db, S> {
    // -----------------------------------------------------------------
    // catalog plumbing
    // -----------------------------------------------------------------

    /// Write a definition down.
    fn store_table(&mut self, table: &Table) -> (r: core::result::Result<(), ExecError>)
        requires
            old(self).ready(),
        ensures
            final(self).after(old(self)),
            *final(final(self).tx.batch.pager) == *final(old(self).tx.batch.pager),
            within(*old(self), *final(self), (1, table_stored(table@).len())),
            ends(
                *old(self),
                *final(self),
                failure(r),
                table_kept(old(self).state(), table@, old(self).lim()),
            ),
    {
        if !storable(table) {
            return Err(
                ExecError::Plan(
                    join3("table '", table.name.as_str(), "' is too large to store"),
                ),
            );
        }
        self.put_schema(table_key(table.name.as_str()).as_slice(), table.serialize().as_slice())
    }

    /// Give out the next object id.
    fn alloc_id(&mut self) -> (r: core::result::Result<u64, ExecError>)
        requires
            old(self).ready(),
        ensures
            final(self).after(old(self)),
            *final(final(self).tx.batch.pager) == *final(old(self).tx.batch.pager),
            within(*old(self), *final(self), (1, 8)),
            ends(*old(self), *final(self), failure(r), id_taken(old(self).state(), old(self).lim())),
            old(self).whole() ==> (r matches Ok(id) ==> next_id(old(self).schema()) == Ok::<
                u64,
                Fail,
            >(id)),
    {
        let next: u64 = match self.view_catalog_get(seq_key().as_slice()) {
            Err(e) => return Err(e),
            Ok(None) => 1,
            Ok(Some(bytes)) => {
                if bytes.len() != 8 {
                    return Err(ExecError::Exec(owned("broken id counter")));
                }
                let next: u64 = get_u64(bytes.as_slice(), 0);
                if next == u64::MAX {
                    return Err(ExecError::Exec(owned("the object ids are used up")));
                }
                next
            },
        };
        let mut raw: Vec<u8> = Vec::new();
        proof {
            lemma_pow256_values();
        }
        put_le(&mut raw, next + 1, 8);
        proof {
            assert(raw@ =~= le_bytes((next + 1) as nat, 8));
            assert(raw@.len() == 8);
        }
        match self.put_schema(seq_key().as_slice(), raw.as_slice()) {
            Ok(_) => Ok(next),
            Err(e) => Err(e),
        }
    }
}

/// Whether the parts of a definition fit the fields they are stored in.
fn storable(table: &Table) -> (r: bool)
    ensures
        r == fits(table@),
{
    if table.name.as_str().as_bytes().len() > 0xFFFF || table.columns.len() > 0xFFFF {
        return false;
    }
    let len: usize = table.columns.len();
    let ghost t = table@;
    for i in 0..len
        invariant
            len == table.columns@.len(),
            t == table@,
            forall|k: int| 0 <= k < i ==> col_fits(#[trigger] t.columns[k]),
    {
        let c = &table.columns[i];
        proof {
            assert(t.columns[i as int] == c@);
        }
        if c.name.as_str().as_bytes().len() > 0xFFFF {
            return false;
        }
        if let Some(0) = c.index_id {
            return false;
        }
        if let Some(v) = &c.default {
            let one: Vec<Value> = vec![v.duplicate()];
            proof {
                assert(vals(one@) =~= seq![v@]);
            }
            if encode_key(one.as_slice()).len() > 0xFFFF_FFFF {
                return false;
            }
        }
    }
    true
}

/// A map without the first keys of a list.
spec fn minus(m: Bytes, s: Seq<Item>, n: int) -> Bytes
    decreases n,
{
    if n <= 0 {
        m
    } else {
        minus(m, s, n - 1).remove(s[n - 1].0)
    }
}

proof fn lemma_minus(m: Bytes, s: Seq<Item>, n: int)
    requires
        0 <= n <= s.len(),
    ensures
        forall|k: Seq<u8>| #[trigger]
            minus(m, s, n).contains_key(k) <==> m.contains_key(k) && !(exists|i: int|
                0 <= i < n && (#[trigger] s[i]).0 == k),
        forall|k: Seq<u8>| #[trigger] minus(m, s, n).contains_key(k) ==> minus(m, s, n)[k] == m[k],
    decreases n,
{
    if n > 0 {
        lemma_minus(m, s, n - 1);
        let a = minus(m, s, n - 1);
        let b = minus(m, s, n);
        assert forall|k: Seq<u8>| #[trigger] b.contains_key(k) <==> m.contains_key(k) && !(exists|
            i: int,
        |
            0 <= i < n && (#[trigger] s[i]).0 == k) by {
            assert(b.contains_key(k) <==> a.contains_key(k) && k != s[n - 1].0);
            if exists|i: int| 0 <= i < n && (#[trigger] s[i]).0 == k {
                let i = choose|i: int| 0 <= i < n && (#[trigger] s[i]).0 == k;
                if i < n - 1 {
                    assert(s[i].0 == k);
                }
            }
        }
        assert forall|k: Seq<u8>| #[trigger] b.contains_key(k) implies b[k] == m[k] by {
            assert(a.contains_key(k));
        }
    }
}

/// Taking away everything listed under a prefix leaves what is not under it.
proof fn lemma_range_gone(m: Bytes, prefix: Seq<u8>, s: Seq<Item>)
    requires
        lists(m, Some(prefix), successor(prefix), s),
    ensures
        minus(m, s, s.len() as int) == without(m, prefix),
{
    let a = minus(m, s, s.len() as int);
    let b = without(m, prefix);
    lemma_minus(m, s, s.len() as int);
    assert forall|k: Seq<u8>| #[trigger] a.contains_key(k) <==> b.contains_key(k) by {
        law_successor_covers_prefix(prefix, k);
        assert(in_range(k, Some(prefix), successor(prefix)) == prefix.is_prefix_of(k));
        if m.contains_key(k) {
            if prefix.is_prefix_of(k) {
                assert(m.contains_key(k) && in_range(k, Some(prefix), successor(prefix)));
                assert(has_key(s, k));
                let i = choose|i: int| 0 <= i < s.len() && (#[trigger] s[i]).0 == k;
                assert(s[i].0 == k);
            } else {
                if exists|i: int| 0 <= i < s.len() && (#[trigger] s[i]).0 == k {
                    let i = choose|i: int| 0 <= i < s.len() && (#[trigger] s[i]).0 == k;
                    assert(in_range(s[i].0, Some(prefix), successor(prefix)));
                }
            }
        }
    }
    assert(a =~= b);
}

impl<'db, S: Storage> Run<'db, S> {
    // -----------------------------------------------------------------
    // definitions
    // -----------------------------------------------------------------

    pub fn create_table(&mut self, def: &TableDef) -> (r: core::result::Result<(), ExecError>)
        requires
            old(self).ready(),
        ensures
            final(self).after(old(self)),
            *final(final(self).tx.batch.pager) == *final(old(self).tx.batch.pager),
            old(self).whole() ==> within(
                *old(self),
                *final(self),
                create_cost(old(self).state(), *def, old(self).lim()),
            ),
            ends(
                *old(self),
                *final(self),
                failure(r),
                table_created(old(self).state(), *def, old(self).lim()),
            ),
    {
        let ghost begin = *self;
        let ghost good = self.whole();
        match self.view_catalog_get(table_key(def.name.as_str()).as_slice()) {
            Err(e) => return Err(e),
            Ok(Some(_)) => return Err(
                ExecError::Plan(join3("table '", def.name.as_str(), "' already exists")),
            ),
            Ok(None) => {},
        }
        let id: u64 = match self.alloc_id() {
            Ok(id) => id,
            Err(e) => return Err(e),
        };
        let ghost first = *self;
        let mut table = match Table::from_ast(def, id) {
            Ok(t) => t,
            Err(e) => return Err(e),
        };
        let ghost plain = table@;
        let len: usize = table.columns.len();
        proof {
            assert(plain.columns.len() == def.columns@.len());
        }
        for i in 0..len
            invariant
                len == def.columns@.len() == table.columns@.len(),
                begin == *old(self),
                good == begin.whole(),
                self.after(&begin),
                within(begin, *self, ((i + 1) as nat, (8 * (i + 1)) as nat)),
                first.after(&begin),
                *final(self.tx.batch.pager) == *final(begin.tx.batch.pager),
                table@.name == plain.name,
                good ==> first.whole() && self.whole(),
                good ==> indexed(first.state(), plain, def.columns@, i as int, begin.lim()) == Ok::<
                    (State, Tab),
                    Fail,
                >((self.state(), table@)),
                good ==> !begin.schema().contains_key(table_at(def.name@)),
                good ==> id_taken(begin.state(), begin.lim()) == Ok::<State, Fail>(first.state()),
                good ==> next_id(begin.schema()) == Ok::<u64, Fail>(id),
                def_ok(def.columns@),
                plain == table_from(*def, id),
        {
            if def.columns[i].index {
                let ghost before = *self;
                let ghost was = table@;
                match self.alloc_id() {
                    Ok(index_id) => {
                        set_index(&mut table, i, index_id);
                    },
                    Err(e) => {
                        proof {
                            if good {
                                lemma_indexed_fails(
                                    first.state(),
                                    plain,
                                    def.columns@,
                                    i as int + 1,
                                    len as int,
                                    begin.lim(),
                                );
                            }
                        }
                        return Err(e);
                    },
                }
            }
        }
        self.store_table(&table)
    }

    /// Delete everything under a prefix.
    fn delete_range(&mut self, prefix: &[u8]) -> (r: core::result::Result<(), ExecError>)
        requires
            old(self).ready(),
        ensures
            final(self).after(old(self)),
            *final(final(self).tx.batch.pager) == *final(old(self).tx.batch.pager),
            old(self).whole() ==> within(
                *old(self),
                *final(self),
                (listing(old(self).rows(), prefix@).len(), 0),
            ),
            ends(
                *old(self),
                *final(self),
                failure(r),
                Ok(State { data: without(old(self).rows(), prefix@), ..old(self).state() }),
            ),
    {
        let ghost begin = *self;
        let ghost good = self.whole();
        let found = match self.view_scan(prefix) {
            Ok(v) => v,
            Err(e) => return Err(e),
        };
        let ghost all = items(found@);
        let len: usize = found.len();
        for i in 0..len
            invariant
                len == found@.len(),
                all == items(found@),
                begin == *old(self),
                good == begin.whole(),
                self.after(&begin),
                within(begin, *self, (i as nat, 0)),
                good ==> all == listing(begin.rows(), prefix@),
                *final(self.tx.batch.pager) == *final(begin.tx.batch.pager),
                self.mutated == begin.mutated,
                good ==> self.whole() && self.schema() == begin.schema()
                    && self.rows() == minus(begin.rows(), all, i as int),
        {
            let ghost before = *self;
            match self.delete_data(found[i].0.as_slice()) {
                Ok(_) => {},
                Err(e) => return Err(e),
            }
        }
        proof {
            if good {
                lemma_range_gone(begin.rows(), prefix@, all);
            }
        }
        Ok(())
    }
}

/// Put an index on one column.
fn set_index(table: &mut Table, pos: usize, id: u64)
    requires
        pos < old(table).columns@.len(),
    ensures
        final(table)@ == index_set(old(table)@, pos as int, id),
        final(table).columns@.len() == old(table).columns@.len(),
{
    let ghost was = table@;
    let mut column = duplicate_column(&table.columns[pos]);
    column.index_id = Some(id);
    table.columns.set(pos, column);
    proof {
        assert(table@.columns =~= index_set(was, pos as int, id).columns);
    }
}

fn duplicate_column(c: &Column) -> (r: Column)
    ensures
        r@ == c@,
{
    Column {
        name: owned(c.name.as_str()),
        ty: c.ty,
        nullable: c.nullable,
        key: c.key,
        index_id: c.index_id,
        default: match &c.default {
            Some(v) => Some(v.duplicate()),
            None => None,
        },
    }
}

proof fn lemma_indexed_fails(st: State, t: Tab, ds: Seq<ColumnDef>, m: int, n: int, lim: int)
    requires
        0 <= m <= n,
    ensures
        indexed(st, t, ds, m, lim) matches Err(e) ==> indexed(st, t, ds, n, lim) == Err::<
            (State, Tab),
            Fail,
        >(e),
    decreases n - m,
{
    if m < n {
        lemma_indexed_fails(st, t, ds, m, n - 1, lim);
    }
}

impl<'db, S: Storage> Run<'db, S> {
    pub fn drop_table(&mut self, name: &str) -> (r: core::result::Result<(), ExecError>)
        requires
            old(self).ready(),
        ensures
            final(self).after(old(self)),
            *final(final(self).tx.batch.pager) == *final(old(self).tx.batch.pager),
            old(self).whole() ==> within(
                *old(self),
                *final(self),
                drop_cost(old(self).state(), name@),
            ),
            ends(*old(self), *final(self), failure(r), table_dropped(old(self).state(), name@)),
    {
        let ghost begin = *self;
        let ghost good = self.whole();
        let table = match load_table_from(self, name) {
            Ok(t) => t,
            Err(e) => return Err(e),
        };
        let ghost t = table@;
        match self.delete_range(object_prefix(table.id).as_slice()) {
            Ok(_) => {},
            Err(e) => return Err(e),
        }
        let ghost first = *self;
        let len: usize = table.columns.len();
        proof {
            lemma_index_entries(without(begin.rows(), range_at(t.id)), t.columns, 0, len as int);
        }
        for i in 0..len
            invariant
                len == table.columns@.len(),
                t == table@,
                begin == *old(self),
                good == begin.whole(),
                self.after(&begin),
                good ==> within(
                    begin,
                    *self,
                    (
                        listing(begin.rows(), range_at(t.id)).len() + index_entries(
                            without(begin.rows(), range_at(t.id)),
                            t.columns,
                            i as int,
                        ),
                        0,
                    ),
                ),
                *final(self.tx.batch.pager) == *final(begin.tx.batch.pager),
                good ==> table_in(begin.schema(), name@) == Ok::<Tab, Fail>(t),
                good ==> self.whole() && self.schema() == begin.schema() && self.mutated
                    == begin.mutated && self.rows() == unindexed(
                    without(begin.rows(), range_at(t.id)),
                    t.columns,
                    i as int,
                ),
        {
            proof {
                assert(t.columns[i as int] == table.columns@[i as int]@);
                lemma_index_entries(
                    without(begin.rows(), range_at(t.id)),
                    t.columns,
                    i as int + 1,
                    len as int,
                );
            }
            if let Some(index_id) = table.columns[i].index_id {
                match self.delete_range(object_prefix(index_id).as_slice()) {
                    Ok(_) => {},
                    Err(e) => return Err(e),
                }
            }
        }
        self.delete_schema(table_key(name).as_slice())
    }

    pub fn create_index<M: Fn(BinaryOp, u64, u64) -> u64, T: Fn(u64) -> String>(
        &mut self,
        table_name: &str,
        column: &str,
        floats: &Floats<M, T>,
    ) -> (r: core::result::Result<(), ExecError>)
        requires
            old(self).ready(),
            floats.ok(),
        ensures
            final(self).after(old(self)),
            *final(final(self).tx.batch.pager) == *final(old(self).tx.batch.pager),
            old(self).whole() ==> within(
                *old(self),
                *final(self),
                index_cost(old(self).state(), table_name@, column@),
            ),
            ends(
                *old(self),
                *final(self),
                failure(r),
                index_created(old(self).state(), table_name@, column@, old(self).lim()),
            ),
    {
        let ghost begin = *self;
        let ghost good = self.whole();
        let mut table = match load_table_from(self, table_name) {
            Ok(t) => t,
            Err(e) => return Err(e),
        };
        let ghost plain = table@;
        let pos: usize = match table.column_position(column) {
            Some(p) => p,
            None => return Err(no_column(table_name, column)),
        };
        proof {
            assert(plain.columns[pos as int] == table.columns@[pos as int]@);
        }
        if table.columns[pos].index_id.is_some() {
            return Err(
                ExecError::Plan(
                    join3(
                        join3("'", table_name, ".").as_str(),
                        column,
                        "' is already indexed",
                    ),
                ),
            );
        }
        let index_id: u64 = match self.alloc_id() {
            Ok(id) => id,
            Err(e) => return Err(e),
        };
        set_index(&mut table, pos, index_id);
        let ghost first = *self;
        let ghost t = table@;
        // backfill from existing rows
        let plan = AccessPlan { access: Access::SeqScan, residual: None };
        let found = match fetch_rows(self, &table, &plan, floats) {
            Ok(v) => v,
            Err(e) => return Err(e),
        };
        let ghost all = hits(found@);
        let len: usize = found.len();
        proof {
            assert(all.take(0) =~= Seq::empty());
            if good {
                assert(first.rows() == begin.rows());
            }
        }
        for i in 0..len
            invariant
                len == found@.len(),
                all == hits(found@),
                t == table@,
                pos < t.columns.len(),
                full_rows(found@, t.columns.len()),
                begin == *old(self),
                good == begin.whole(),
                self.after(&begin),
                first.after(&begin),
                within(begin, *self, ((i + 1) as nat, 8)),
                good ==> first.rows() == begin.rows(),
                *final(self.tx.batch.pager) == *final(begin.tx.batch.pager),
                good ==> {
                    &&& table_in(begin.schema(), table_name@) == Ok::<Tab, Fail>(plain)
                    &&& spot(plain.columns, column@) == Some(pos as int)
                    &&& plain.columns[pos as int].index_id is None
                    &&& id_taken(begin.state(), begin.lim()) == Ok::<State, Fail>(first.state())
                    &&& next_id(begin.schema()) == Ok::<u64, Fail>(index_id)
                    &&& t == index_set(plain, pos as int, index_id)
                    &&& reached(first.rows(), t, Path::SeqScan) == Ok::<Seq<Hit>, Fail>(all)
                    &&& self.whole()
                    &&& self.schema() == first.schema()
                    &&& self.mutated == first.mutated
                    &&& backfilled(
                        first.rows(),
                        t.columns,
                        index_id,
                        pos as int,
                        all.take(i as int),
                        begin.lim(),
                    ) == Ok::<Bytes, Fail>(self.rows())
                },
        {
            proof {
                let now = all.take(i as int + 1);
                assert(now.drop_last() =~= all.take(i as int));
                assert(now.last() == (found@[i as int].0@, vals(found@[i as int].1@)));
                assert(found@[i as int].1@.len() == t.columns.len());
                assert(vals(found@[i as int].1@)[pos as int] == found@[i as int].1@[pos as int]@);
            }
            let values = &found[i].1;
            let pk = row_pk(&table, values.as_slice());
            let entry = index_entry_key(index_id, &values[pos], pk.as_slice());
            let none: Vec<u8> = Vec::new();
            match self.put_data(entry.as_slice(), none.as_slice()) {
                Ok(_) => {},
                Err(e) => {
                    proof {
                        if good {
                            lemma_backfilled_fails(
                                first.rows(),
                                t.columns,
                                index_id,
                                pos as int,
                                all,
                                begin.lim(),
                                i as int + 1,
                            );
                        }
                    }
                    return Err(e);
                },
            }
        }
        proof {
            assert(all.take(len as int) =~= all);
        }
        self.store_table(&table)
    }

    pub fn show_tables(&self) -> (r: core::result::Result<Vec<String>, ExecError>)
        requires
            self.ready(),
        ensures
            self.whole() ==> match r {
                Ok(v) => table_names(listing(self.schema(), tables_at())) == Ok::<
                    Seq<Seq<char>>,
                    Fail,
                >(texts(v@)),
                Err(e) => (e.fail() is Storage && !self.steady()) || table_names(
                    listing(self.schema(), tables_at()),
                ) == Err::<Seq<Seq<char>>, Fail>(e.fail()),
            },
    {
        let found = match self.view_catalog_scan(tables_prefix().as_slice()) {
            Ok(v) => v,
            Err(e) => return Err(e),
        };
        let ghost all = items(found@);
        let mut names: Vec<String> = Vec::new();
        let len: usize = found.len();
        proof {
            assert(texts(names@) =~= Seq::empty());
            assert(all.take(0) =~= Seq::empty());
        }
        for i in 0..len
            invariant
                len == found@.len(),
                all == items(found@),
                self.whole() ==> all == listing(self.schema(), tables_at()),
                table_names(all.take(i as int)) == Ok::<Seq<Seq<char>>, Fail>(texts(names@)),
        {
            proof {
                let now = all.take(i as int + 1);
                assert(now.drop_last() =~= all.take(i as int));
                assert(now.last() == (found@[i as int].0@, found@[i as int].1@));
            }
            match Table::deserialize(found[i].1.as_slice()) {
                Ok(t) => {
                    let ghost had = names@;
                    names.push(t.name);
                    proof {
                        assert(texts(names@) =~= texts(had).push(t@.name));
                    }
                },
                Err(e) => {
                    proof {
                        lemma_table_names_fails(all, i as int + 1);
                    }
                    return Err(e);
                },
            }
        }
        proof {
            assert(all.take(len as int) =~= all);
        }
        Ok(names)
    }
}

proof fn lemma_backfilled_fails(
    m: Bytes,
    cs: Seq<Col>,
    id: u64,
    pos: int,
    h: Seq<Hit>,
    lim: int,
    n: int,
)
    requires
        0 <= n <= h.len(),
    ensures
        backfilled(m, cs, id, pos, h.take(n), lim) matches Err(e) ==> backfilled(
            m,
            cs,
            id,
            pos,
            h,
            lim,
        ) == Err::<Bytes, Fail>(e),
    decreases h.len() - n,
{
    if n < h.len() {
        assert(h.take(n + 1).drop_last() =~= h.take(n));
        lemma_backfilled_fails(m, cs, id, pos, h, lim, n + 1);
    } else {
        assert(h.take(n) =~= h);
    }
}

proof fn lemma_table_names_fails(raw: Seq<Item>, n: int)
    requires
        0 <= n <= raw.len(),
        table_names(raw.take(n)) is Err,
    ensures
        table_names(raw) == table_names(raw.take(n)),
    decreases raw.len() - n,
{
    if n < raw.len() {
        assert(raw.take(n + 1).drop_last() =~= raw.take(n));
        lemma_table_names_fails(raw, n + 1);
    } else {
        assert(raw.take(n) =~= raw);
    }
}

// ---------------------------------------------------------------------
// rows
// ---------------------------------------------------------------------

proof fn lemma_given_fails(t: Tab, fields: Seq<(String, Expr)>, g: Math, m: int, n: int)
    requires
        0 <= m <= n,
    ensures
        given(t, fields, m, g) matches Err(e) ==> given(t, fields, n, g) == Err::<
            Seq<Option<Val>>,
            Fail,
        >(e),
    decreases n - m,
{
    if m < n {
        lemma_given_fails(t, fields, g, m, n - 1);
    }
}

/// The values behind optional ones.
spec fn opt_vals(s: Seq<Option<Value>>) -> Seq<Option<Val>> {
    Seq::new(s.len(), |i: int| crate::catalog::opt_val(s[i]))
}

fn gather<M: Fn(BinaryOp, u64, u64) -> u64, T: Fn(u64) -> String>(
    table: &Table,
    fields: &Vec<(String, Expr)>,
    floats: &Floats<M, T>,
) -> (r: core::result::Result<Vec<Option<Value>>, ExecError>)
    requires
        floats.ok(),
    ensures
        match r {
            Ok(vs) => given(table@, fields@, fields@.len() as int, floats.math()) == Ok::<
                Seq<Option<Val>>,
                Fail,
            >(opt_vals(vs@)) && vs@.len() == table@.columns.len(),
            Err(e) => given(table@, fields@, fields@.len() as int, floats.math()) == Err::<
                Seq<Option<Val>>,
                Fail,
            >(e.fail()),
        },
{
    let ghost t = table@;
    let ghost g = floats.math();
    let width: usize = table.columns.len();
    let mut values: Vec<Option<Value>> = Vec::new();
    for i in 0..width
        invariant
            values@.len() == i,
            forall|k: int| 0 <= k < i ==> (#[trigger] values@[k]) is None,
    {
        values.push(None);
    }
    proof {
        let none: Seq<Option<Val>> = Seq::new(t.columns.len(), |i: int| None);
        assert(opt_vals(values@) =~= none);
    }
    let len: usize = fields.len();
    for i in 0..len
        invariant
            len == fields@.len(),
            t == table@,
            g == floats.math(),
            floats.ok(),
            values@.len() == t.columns.len(),
            given(t, fields@, i as int, g) == Ok::<Seq<Option<Val>>, Fail>(opt_vals(values@)),
    {
        let name = fields[i].0.as_str();
        proof {
            lemma_given_fails(t, fields@, g, i as int + 1, len as int);
        }
        let pos: usize = match table.column_position(name) {
            Some(p) => p,
            None => return Err(no_column(table.name.as_str(), name)),
        };
        proof {
            assert(t.columns[pos as int] == table.columns@[pos as int]@);
            assert(opt_vals(values@)[pos as int] == crate::catalog::opt_val(values@[pos as int]));
        }
        if values[pos].is_some() {
            return Err(
                ExecError::Plan(join3("column '", name, "' appears twice in this row")),
            );
        }
        let col = &table.columns[pos];
        let value = match eval(&fields[i].1, &NoScope, floats) {
            Ok(v) => v,
            Err(e) => return Err(e),
        };
        match coerce(value, col.ty, col.nullable) {
            Ok(v) => {
                let ghost had = values@;
                values.set(pos, Some(v));
                proof {
                    assert(opt_vals(values@) =~= opt_vals(had).update(pos as int, Some(v@)));
                }
            },
            Err(e) => return Err(
                ExecError::Exec(
                    join2(join3("column '", name, "': ").as_str(), e.message().as_str()),
                ),
            ),
        }
    }
    Ok(values)
}

/// Assemble a full row from the fields of a `put`, applying defaults and
/// coercions, rejecting unknowns and holes.
pub fn build_row<M: Fn(BinaryOp, u64, u64) -> u64, T: Fn(u64) -> String>(
    table: &Table,
    fields: &Vec<(String, Expr)>,
    floats: &Floats<M, T>,
) -> (r: core::result::Result<Vec<Value>, ExecError>)
    requires
        floats.ok(),
    ensures
        match r {
            Ok(row) => built(table@, fields@, floats.math()) == Ok::<Row, Fail>(vals(row@))
                && row@.len() == table@.columns.len(),
            Err(e) => built(table@, fields@, floats.math()) == Err::<Row, Fail>(e.fail()),
        },
{
    let ghost t = table@;
    let values = match gather(table, fields, floats) {
        Ok(v) => v,
        Err(e) => return Err(e),
    };
    let ghost vs = opt_vals(values@);
    let mut out: Vec<Value> = Vec::new();
    let len: usize = table.columns.len();
    for i in 0..len
        invariant
            len == table.columns@.len() == values@.len(),
            t == table@,
            vs == opt_vals(values@),
            given(t, fields@, fields@.len() as int, floats.math()) == Ok::<Seq<Option<Val>>, Fail>(
                vs,
            ),
            out@.len() == i,
            forall|k: int|
                0 <= k < i ==> filled(t.columns[k], vs[k]) == Ok::<Val, Fail>(
                    (#[trigger] out@[k])@,
                ),
    {
        let col = &table.columns[i];
        proof {
            assert(t.columns[i as int] == col@);
            assert(vs[i as int] == crate::catalog::opt_val(values@[i as int]));
        }
        match &values[i] {
            Some(v) => out.push(v.duplicate()),
            None => match &col.default {
                Some(d) => out.push(d.duplicate()),
                None => if col.nullable {
                    out.push(Value::Null)
                } else {
                    proof {
                        assert(filled(t.columns[i as int], vs[i as int]) is Err);
                    }
                    return Err(
                        ExecError::Exec(
                            join3(
                                "column '",
                                col.name.as_str(),
                                "' is missing and has no default",
                            ),
                        ),
                    );
                },
            },
        }
    }
    proof {
        assert forall|i: int| 0 <= i < t.columns.len() implies filled(
            #[trigger] t.columns[i],
            vs[i],
        ) is Ok by {
            assert(filled(t.columns[i], vs[i]) == Ok::<Val, Fail>(out@[i]@));
        }
        let want = Seq::new(t.columns.len(), |i: int| filled(t.columns[i], vs[i])->Ok_0);
        assert forall|i: int| 0 <= i < want.len() implies #[trigger] vals(out@)[i] == want[i] by {
            assert(filled(t.columns[i], vs[i]) == Ok::<Val, Fail>(out@[i]@));
        }
        assert(vals(out@) =~= want);
    }
    Ok(out)
}

proof fn lemma_entries_put_fails(m: Bytes, cs: Seq<Col>, row: Row, lim: int, k: int, n: int)
    requires
        0 <= k <= n,
    ensures
        entries_put(m, cs, k, row, lim) matches Err(e) ==> entries_put(m, cs, n, row, lim) == Err::<
            Bytes,
            Fail,
        >(e),
    decreases n - k,
{
    if k < n {
        lemma_entries_put_fails(m, cs, row, lim, k, n - 1);
    }
}

proof fn lemma_entries_moved_fails(
    m: Bytes,
    cs: Seq<Col>,
    old: Row,
    new: Row,
    lim: int,
    k: int,
    n: int,
)
    requires
        0 <= k <= n,
    ensures
        entries_moved(m, cs, k, old, new, lim) matches Err(e) ==> entries_moved(
            m,
            cs,
            n,
            old,
            new,
            lim,
        ) == Err::<Bytes, Fail>(e),
    decreases n - k,
{
    if k < n {
        lemma_entries_moved_fails(m, cs, old, new, lim, k, n - 1);
    }
}

proof fn lemma_rows_put_fails(
    m: Bytes,
    t: Tab,
    rows: Seq<Vec<(String, Expr)>>,
    lim: int,
    g: Math,
    k: int,
    n: int,
)
    requires
        0 <= k <= n,
    ensures
        rows_put(m, t, rows, k, lim, g) matches Err(e) ==> rows_put(m, t, rows, n, lim, g) == Err::<
            Bytes,
            Fail,
        >(e),
    decreases n - k,
{
    if k < n {
        lemma_rows_put_fails(m, t, rows, lim, g, k, n - 1);
    }
}

proof fn lemma_rows_set_fails(
    m: Bytes,
    t: Tab,
    h: Seq<Hit>,
    assigns: Seq<Assign>,
    lim: int,
    g: Math,
    n: int,
)
    requires
        0 <= n <= h.len(),
    ensures
        rows_set(m, t, h.take(n), assigns, lim, g) matches Err(e) ==> rows_set(
            m,
            t,
            h,
            assigns,
            lim,
            g,
        ) == Err::<Bytes, Fail>(e),
    decreases h.len() - n,
{
    if n < h.len() {
        assert(h.take(n + 1).drop_last() =~= h.take(n));
        lemma_rows_set_fails(m, t, h, assigns, lim, g, n + 1);
    } else {
        assert(h.take(n) =~= h);
    }
}

proof fn lemma_assigned_fails(t: Tab, old: Row, assigns: Seq<Assign>, g: Math, k: int, n: int)
    requires
        0 <= k <= n,
    ensures
        assigned(t, old, assigns, k, g) matches Err(e) ==> assigned(t, old, assigns, n, g) == Err::<
            Row,
            Fail,
        >(e),
    decreases n - k,
{
    if k < n {
        lemma_assigned_fails(t, old, assigns, g, k, n - 1);
    }
}

/// Whether an index entry has to move.
fn has_moved(old: &Value, new: &Value) -> (r: bool)
    ensures
        r == moves(old@, new@),
{
    let same: bool = match values_equal(old, new) {
        Ok(b) => b,
        Err(_) => false,
    };
    !same || !same_text(type_of(old), type_of(new))
}

impl<'db, S: Storage> Run<'db, S> {
    /// Write the index entries of a row.
    fn put_entries(&mut self, table: &Table, row: &Vec<Value>) -> (r: core::result::Result<
        (),
        ExecError,
    >)
        requires
            old(self).ready(),
            row@.len() == table@.columns.len(),
        ensures
            final(self).after(old(self)),
            *final(final(self).tx.batch.pager) == *final(old(self).tx.batch.pager),
            within(*old(self), *final(self), (table@.columns.len(), 0)),
            final(self).mutated == old(self).mutated,
            ends(
                *old(self),
                *final(self),
                failure(r),
                on_data(
                    old(self).state(),
                    entries_put(
                        old(self).rows(),
                        table@.columns,
                        table@.columns.len() as int,
                        vals(row@),
                        old(self).lim(),
                    ),
                ),
            ),
    {
        let ghost begin = *self;
        let ghost good = self.whole();
        let ghost cs = table@.columns;
        let ghost vs = vals(row@);
        let pk = row_pk(table, row.as_slice());
        let none: Vec<u8> = Vec::new();
        let len: usize = table.columns.len();
        for i in 0..len
            invariant
                len == table.columns@.len() == row@.len(),
                cs == table@.columns,
                vs == vals(row@),
                vals(pk@) == pk_of(cs, vs),
                none@ == Seq::<u8>::empty(),
                begin == *old(self),
                good == begin.whole(),
                self.after(&begin),
                within(begin, *self, (i as nat, 0)),
                self.mutated == begin.mutated,
                *final(self.tx.batch.pager) == *final(begin.tx.batch.pager),
                good ==> self.whole() && self.schema() == begin.schema() && entries_put(
                    begin.rows(),
                    cs,
                    i as int,
                    vs,
                    begin.lim(),
                ) == Ok::<Bytes, Fail>(self.rows()),
        {
            proof {
                assert(cs[i as int] == table.columns@[i as int]@);
                assert(vs[i as int] == row@[i as int]@);
                lemma_entries_put_fails(begin.rows(), cs, vs, begin.lim(), i as int + 1, len as int);
            }
            if let Some(index_id) = table.columns[i].index_id {
                let entry = index_entry_key(index_id, &row[i], pk.as_slice());
                match self.put_data(entry.as_slice(), none.as_slice()) {
                    Ok(_) => {},
                    Err(e) => return Err(e),
                }
            }
        }
        Ok(())
    }

    /// Take the index entries of a row away.
    fn cut_entries(&mut self, table: &Table, row: &Vec<Value>) -> (r: core::result::Result<
        (),
        ExecError,
    >)
        requires
            old(self).ready(),
            row@.len() == table@.columns.len(),
        ensures
            final(self).after(old(self)),
            *final(final(self).tx.batch.pager) == *final(old(self).tx.batch.pager),
            within(*old(self), *final(self), (table@.columns.len(), 0)),
            final(self).mutated == old(self).mutated,
            ends(
                *old(self),
                *final(self),
                failure(r),
                Ok(
                    State {
                        data: entries_cut(
                            old(self).rows(),
                            table@.columns,
                            table@.columns.len() as int,
                            vals(row@),
                        ),
                        ..old(self).state()
                    },
                ),
            ),
    {
        let ghost begin = *self;
        let ghost good = self.whole();
        let ghost cs = table@.columns;
        let ghost vs = vals(row@);
        let pk = row_pk(table, row.as_slice());
        let len: usize = table.columns.len();
        for i in 0..len
            invariant
                len == table.columns@.len() == row@.len(),
                cs == table@.columns,
                vs == vals(row@),
                vals(pk@) == pk_of(cs, vs),
                begin == *old(self),
                good == begin.whole(),
                self.after(&begin),
                within(begin, *self, (i as nat, 0)),
                self.mutated == begin.mutated,
                *final(self.tx.batch.pager) == *final(begin.tx.batch.pager),
                good ==> self.whole() && self.schema() == begin.schema() && self.rows()
                    == entries_cut(begin.rows(), cs, i as int, vs),
        {
            proof {
                assert(cs[i as int] == table.columns@[i as int]@);
                assert(vs[i as int] == row@[i as int]@);
            }
            if let Some(index_id) = table.columns[i].index_id {
                let entry = index_entry_key(index_id, &row[i], pk.as_slice());
                match self.delete_data(entry.as_slice()) {
                    Ok(_) => {},
                    Err(e) => return Err(e),
                }
            }
        }
        Ok(())
    }

    /// Move the index entries of a changed row.
    fn move_entries(&mut self, table: &Table, was: &Vec<Value>, new: &Vec<Value>) -> (r:
        core::result::Result<(), ExecError>)
        requires
            old(self).ready(),
            was@.len() == table@.columns.len(),
            new@.len() == table@.columns.len(),
        ensures
            final(self).after(old(self)),
            *final(final(self).tx.batch.pager) == *final(old(self).tx.batch.pager),
            within(*old(self), *final(self), (2 * table@.columns.len(), 0)),
            final(self).mutated == old(self).mutated,
            ends(
                *old(self),
                *final(self),
                failure(r),
                on_data(
                    old(self).state(),
                    entries_moved(
                        old(self).rows(),
                        table@.columns,
                        table@.columns.len() as int,
                        vals(was@),
                        vals(new@),
                        old(self).lim(),
                    ),
                ),
            ),
    {
        let ghost begin = *self;
        let ghost good = self.whole();
        let ghost cs = table@.columns;
        let ghost vs = vals(was@);
        let ghost ws = vals(new@);
        let pk = row_pk(table, was.as_slice());
        let none: Vec<u8> = Vec::new();
        let len: usize = table.columns.len();
        for i in 0..len
            invariant
                len == table.columns@.len() == was@.len(),
                new@.len() == len,
                cs == table@.columns,
                vs == vals(was@),
                ws == vals(new@),
                vals(pk@) == pk_of(cs, vs),
                none@ == Seq::<u8>::empty(),
                begin == *old(self),
                good == begin.whole(),
                self.after(&begin),
                within(begin, *self, ((2 * i) as nat, 0)),
                self.mutated == begin.mutated,
                *final(self.tx.batch.pager) == *final(begin.tx.batch.pager),
                good ==> self.whole() && self.schema() == begin.schema() && entries_moved(
                    begin.rows(),
                    cs,
                    i as int,
                    vs,
                    ws,
                    begin.lim(),
                ) == Ok::<Bytes, Fail>(self.rows()),
        {
            proof {
                assert(cs[i as int] == table.columns@[i as int]@);
                assert(vs[i as int] == was@[i as int]@);
                assert(ws[i as int] == new@[i as int]@);
                lemma_entries_moved_fails(
                    begin.rows(),
                    cs,
                    vs,
                    ws,
                    begin.lim(),
                    i as int + 1,
                    len as int,
                );
            }
            if let Some(index_id) = table.columns[i].index_id {
                if has_moved(&was[i], &new[i]) {
                    let before = index_entry_key(index_id, &was[i], pk.as_slice());
                    match self.delete_data(before.as_slice()) {
                        Ok(_) => {},
                        Err(e) => return Err(e),
                    }
                    let after = index_entry_key(index_id, &new[i], pk.as_slice());
                    match self.put_data(after.as_slice(), none.as_slice()) {
                        Ok(_) => {},
                        Err(e) => return Err(e),
                    }
                }
            }
        }
        Ok(())
    }

    /// Add one row with its index entries.
    fn put_row<M: Fn(BinaryOp, u64, u64) -> u64, T: Fn(u64) -> String>(
        &mut self,
        table: &Table,
        row: &Vec<Value>,
        floats: &Floats<M, T>,
    ) -> (r: core::result::Result<(), ExecError>)
        requires
            old(self).ready(),
            floats.ok(),
            row@.len() == table@.columns.len(),
        ensures
            final(self).after(old(self)),
            *final(final(self).tx.batch.pager) == *final(old(self).tx.batch.pager),
            within(
                *old(self),
                *final(self),
                (table@.columns.len() + 1, enc_key(vals(row@)).len()),
            ),
            final(self).mutated == old(self).mutated,
            ends(
                *old(self),
                *final(self),
                failure(r),
                on_data(
                    old(self).state(),
                    row_put(old(self).rows(), table@, vals(row@), old(self).lim()),
                ),
            ),
    {
        let pk = row_pk(table, row.as_slice());
        let key = row_key(table.id, pk.as_slice());
        match self.view_get(key.as_slice()) {
            Err(e) => return Err(e),
            Ok(Some(_)) => {
                let mut shown: Vec<String> = Vec::new();
                let len: usize = pk.len();
                for i in 0..len
                    invariant
                        len == pk@.len(),
                        floats.ok(),
                {
                    shown.push(pretty::literal(&pk[i], floats));
                }
                return Err(
                    ExecError::Exec(
                        join2(
                            join3(
                                "duplicate key (",
                                join_all(&shown, ", ").as_str(),
                                ") in table '",
                            ).as_str(),
                            join2(table.name.as_str(), "'").as_str(),
                        ),
                    ),
                );
            },
            Ok(None) => {},
        }
        match self.put_data(key.as_slice(), encode_key(row.as_slice()).as_slice()) {
            Ok(_) => {},
            Err(e) => return Err(e),
        }
        self.put_entries(table, row)
    }

    /// Add rows. Gives back how many.
    pub fn put<M: Fn(BinaryOp, u64, u64) -> u64, T: Fn(u64) -> String>(
        &mut self,
        table_name: &str,
        rows: &Vec<Vec<(String, Expr)>>,
        floats: &Floats<M, T>,
    ) -> (r: core::result::Result<u64, ExecError>)
        requires
            old(self).ready(),
            floats.ok(),
        ensures
            final(self).after(old(self)),
            *final(final(self).tx.batch.pager) == *final(old(self).tx.batch.pager),
            old(self).whole() ==> within(
                *old(self),
                *final(self),
                put_cost(old(self).state(), table_name@, rows@, floats.math()),
            ),
            ends(
                *old(self),
                *final(self),
                failure(r),
                put_done(old(self).state(), table_name@, rows@, old(self).lim(), floats.math()),
            ),
            r matches Ok(n) ==> n == rows@.len(),
    {
        let ghost begin = *self;
        let ghost good = self.whole();
        let ghost g = floats.math();
        let table = match load_table_from(self, table_name) {
            Ok(t) => t,
            Err(e) => return Err(e),
        };
        let ghost t = table@;
        let len: usize = rows.len();
        for i in 0..len
            invariant
                len == rows@.len(),
                t == table@,
                g == floats.math(),
                floats.ok(),
                begin == *old(self),
                good == begin.whole(),
                self.after(&begin),
                within(
                    begin,
                    *self,
                    ((i as nat) * (t.columns.len() + 1), put_bytes(t, rows@, i as int, g)),
                ),
                self.mutated == (begin.mutated || i > 0),
                *final(self.tx.batch.pager) == *final(begin.tx.batch.pager),
                good ==> table_in(begin.schema(), table_name@) == Ok::<Tab, Fail>(t),
                good ==> self.whole() && self.schema() == begin.schema() && rows_put(
                    begin.rows(),
                    t,
                    rows@,
                    i as int,
                    begin.lim(),
                    g,
                ) == Ok::<Bytes, Fail>(self.rows()),
        {
            proof {
                lemma_once_more(i as nat, len as nat, t.columns.len() + 1);
                lemma_put_bytes(t, rows@, i as int + 1, len as int, g);
                lemma_rows_put_fails(
                    begin.rows(),
                    t,
                    rows@,
                    begin.lim(),
                    g,
                    i as int + 1,
                    len as int,
                );
            }
            let values = match build_row(&table, &rows[i], floats) {
                Ok(v) => v,
                Err(e) => return Err(e),
            };
            match self.put_row(&table, &values, floats) {
                Ok(_) => {},
                Err(e) => return Err(e),
            }
            self.mark();
        }
        Ok(len as u64)
    }

    /// The rows a filter selects.
    fn select<M: Fn(BinaryOp, u64, u64) -> u64, T: Fn(u64) -> String>(
        &self,
        table_name: &str,
        filter: Option<&Expr>,
        floats: &Floats<M, T>,
    ) -> (r: core::result::Result<(Table, Fetched), ExecError>)
        requires
            self.ready(),
            floats.ok(),
        ensures
            r matches Ok((t, v)) ==> full_rows(v@, t@.columns.len()),
            self.whole() ==> match r {
                Ok((t, v)) => selected(
                    self.state(),
                    table_name@,
                    ref_term(filter),
                    floats.math(),
                ) == Ok::<(Tab, Seq<Hit>), Fail>((t@, hits(v@))),
                Err(e) => (e.fail() is Storage && !self.steady()) || selected(
                    self.state(),
                    table_name@,
                    ref_term(filter),
                    floats.math(),
                ) == Err::<(Tab, Seq<Hit>), Fail>(e.fail()),
            },
    {
        let table = match load_table_from(self, table_name) {
            Ok(t) => t,
            Err(e) => return Err(e),
        };
        if let Some(f) = filter {
            if let Err(e) = validate_columns(&table, f) {
                return Err(e);
            }
        }
        let plan = match plan_access(&table, filter) {
            Ok(p) => p,
            Err(e) => return Err(e),
        };
        match fetch_rows(self, &table, &plan, floats) {
            Ok(v) => Ok((table, v)),
            Err(e) => Err(e),
        }
    }

    /// Delete the rows a filter selects. Gives back how many.
    pub fn del<M: Fn(BinaryOp, u64, u64) -> u64, T: Fn(u64) -> String>(
        &mut self,
        table_name: &str,
        filter: Option<&Expr>,
        floats: &Floats<M, T>,
    ) -> (r: core::result::Result<u64, ExecError>)
        requires
            old(self).ready(),
            floats.ok(),
        ensures
            final(self).after(old(self)),
            *final(final(self).tx.batch.pager) == *final(old(self).tx.batch.pager),
            old(self).whole() ==> within(
                *old(self),
                *final(self),
                del_cost(old(self).state(), table_name@, ref_term(filter), floats.math()),
            ),
            ({
                let want = del_done(
                    old(self).state(),
                    table_name@,
                    ref_term(filter),
                    floats.math(),
                );
                &&& ends(*old(self), *final(self), failure(r), first_of(want))
                &&& old(self).whole() ==> (r matches Ok(n) ==> (want->Ok_0).1 == n)
            }),
    {
        let ghost begin = *self;
        let ghost good = self.whole();
        let ghost g = floats.math();
        let ghost f = ref_term(filter);
        let (table, found) = match self.select(table_name, filter, floats) {
            Ok(x) => x,
            Err(e) => return Err(e),
        };
        let ghost t = table@;
        let ghost all = hits(found@);
        let len: usize = found.len();
        proof {
            assert(all.take(0) =~= Seq::empty());
        }
        for i in 0..len
            invariant
                len == found@.len(),
                t == table@,
                all == hits(found@),
                full_rows(found@, t.columns.len()),
                begin == *old(self),
                good == begin.whole(),
                self.after(&begin),
                within(begin, *self, ((i as nat) * (t.columns.len() + 1), 0)),
                self.mutated == (begin.mutated || i > 0),
                *final(self.tx.batch.pager) == *final(begin.tx.batch.pager),
                good ==> selected(begin.state(), table_name@, f, g) == Ok::<(Tab, Seq<Hit>), Fail>(
                    (t, all),
                ),
                f == ref_term(filter),
                g == floats.math(),
                good ==> self.whole() && self.schema() == begin.schema() && self.rows() == rows_cut(
                    begin.rows(),
                    t,
                    all.take(i as int),
                ),
        {
            proof {
                lemma_once_more(i as nat, len as nat, t.columns.len() + 1);
                let now = all.take(i as int + 1);
                assert(now.drop_last() =~= all.take(i as int));
                assert(now.last() == (found@[i as int].0@, vals(found@[i as int].1@)));
            }
            match self.delete_data(found[i].0.as_slice()) {
                Ok(_) => {},
                Err(e) => return Err(e),
            }
            match self.cut_entries(&table, &found[i].1) {
                Ok(_) => {},
                Err(e) => return Err(e),
            }
            self.mark();
        }
        proof {
            assert(all.take(len as int) =~= all);
        }
        Ok(len as u64)
    }
}

/// The state of a result that has more to it.
pub open spec fn first_of(r: core::result::Result<(State, nat), Fail>) -> Next {
    match r {
        Ok((s, _)) => Ok(s),
        Err(e) => Err(e),
    }
}

/// Where the assignments of a `set` go.
pub open spec fn aims(t: Tab, assigns: Seq<Assign>, at: Seq<usize>) -> bool {
    &&& at.len() == assigns.len()
    &&& forall|i: int|
        0 <= i < at.len() ==> spot(t.columns, (#[trigger] assigns[i]).column@) == Some(
            at[i] as int,
        ) && at[i] < t.columns.len()
}

fn find_targets(table: &Table, assigns: &Vec<Assign>) -> (r: core::result::Result<
    Vec<usize>,
    ExecError,
>)
    ensures
        match r {
            Ok(at) => aims(table@, assigns@, at@) && forall|i: int|
                0 <= i < assigns@.len() ==> assign_ok(table@, #[trigger] assigns@[i]),
            Err(e) => e.fail() is Plan && exists|i: int|
                0 <= i < assigns@.len() && !assign_ok(table@, #[trigger] assigns@[i]),
        },
{
    let ghost t = table@;
    let mut at: Vec<usize> = Vec::new();
    let len: usize = assigns.len();
    for i in 0..len
        invariant
            len == assigns@.len(),
            t == table@,
            at@.len() == i,
            forall|k: int|
                0 <= k < i ==> spot(t.columns, (#[trigger] assigns@[k]).column@) == Some(
                    at@[k] as int,
                ) && at@[k] < t.columns.len(),
            forall|k: int| 0 <= k < i ==> assign_ok(t, #[trigger] assigns@[k]),
    {
        let a = &assigns[i];
        let pos: usize = match table.column_position(a.column.as_str()) {
            Some(p) => p,
            None => {
                proof {
                    assert(!assign_ok(t, assigns@[i as int]));
                }
                return Err(no_column(table.name.as_str(), a.column.as_str()));
            },
        };
        proof {
            assert(t.columns[pos as int] == table.columns@[pos as int]@);
        }
        if table.columns[pos].key {
            proof {
                assert(!assign_ok(t, assigns@[i as int]));
            }
            return Err(
                ExecError::Plan(
                    join3(
                        "cannot set key column '",
                        a.column.as_str(),
                        "' (comes with row moves in phase 3)",
                    ),
                ),
            );
        }
        if let Err(e) = validate_columns(table, &a.expr) {
            proof {
                assert(!assign_ok(t, assigns@[i as int]));
            }
            return Err(e);
        }
        proof {
            assert(assign_ok(t, assigns@[i as int]));
        }
        at.push(pos);
    }
    Ok(at)
}

/// A row after the assignments. Every one of them sees the row as it was
/// before.
fn assign_row<M: Fn(BinaryOp, u64, u64) -> u64, T: Fn(u64) -> String>(
    table: &Table,
    row: &Vec<Value>,
    assigns: &Vec<Assign>,
    at: &Vec<usize>,
    floats: &Floats<M, T>,
) -> (r: core::result::Result<Vec<Value>, ExecError>)
    requires
        floats.ok(),
        row@.len() == table@.columns.len(),
        aims(table@, assigns@, at@),
    ensures
        match r {
            Ok(new) => assigned(
                table@,
                vals(row@),
                assigns@,
                assigns@.len() as int,
                floats.math(),
            ) == Ok::<Row, Fail>(vals(new@)) && new@.len() == row@.len(),
            Err(e) => assigned(
                table@,
                vals(row@),
                assigns@,
                assigns@.len() as int,
                floats.math(),
            ) == Err::<Row, Fail>(e.fail()),
        },
{
    let ghost t = table@;
    let ghost g = floats.math();
    let ghost was = vals(row@);
    let mut new = copy_values(row.as_slice());
    proof {
        assert(vals(new@).len() == vals(row@).len());
    }
    let scope = RowScope { table, values: row };
    let len: usize = assigns.len();
    for i in 0..len
        invariant
            len == assigns@.len(),
            t == table@,
            g == floats.math(),
            was == vals(row@),
            floats.ok(),
            row@.len() == t.columns.len() == new@.len(),
            scope.table@ == t,
            scope.values@ == row@,
            aims(t, assigns@, at@),
            assigned(t, was, assigns@, i as int, g) == Ok::<Row, Fail>(vals(new@)),
    {
        let pos: usize = at[i];
        proof {
            lemma_assigned_fails(t, was, assigns@, g, i as int + 1, len as int);
            assert(spot(t.columns, assigns@[i as int].column@) == Some(pos as int));
            assert(t.columns[pos as int] == table.columns@[pos as int]@);
        }
        let col = &table.columns[pos];
        let value = match eval(&assigns[i].expr, &scope, floats) {
            Ok(v) => v,
            Err(e) => return Err(e),
        };
        match coerce(value, col.ty, col.nullable) {
            Ok(v) => {
                let ghost had = new@;
                new.set(pos, v);
                proof {
                    assert(vals(new@) =~= vals(had).update(pos as int, v@));
                }
            },
            Err(e) => return Err(
                ExecError::Exec(
                    join2(
                        join3("column '", assigns[i].column.as_str(), "': ").as_str(),
                        e.message().as_str(),
                    ),
                ),
            ),
        }
    }
    Ok(new)
}

impl<'db, S: Storage> Run<'db, S> {
    /// Change one row in place.
    fn set_row<M: Fn(BinaryOp, u64, u64) -> u64, T: Fn(u64) -> String>(
        &mut self,
        table: &Table,
        hit: &(Vec<u8>, Vec<Value>),
        assigns: &Vec<Assign>,
        at: &Vec<usize>,
        floats: &Floats<M, T>,
    ) -> (r: core::result::Result<(), ExecError>)
        requires
            old(self).ready(),
            floats.ok(),
            hit.1@.len() == table@.columns.len(),
            aims(table@, assigns@, at@),
        ensures
            final(self).after(old(self)),
            *final(final(self).tx.batch.pager) == *final(old(self).tx.batch.pager),
            within(
                *old(self),
                *final(self),
                (
                    2 * table@.columns.len() + 1,
                    match assigned(
                        table@,
                        vals(hit.1@),
                        assigns@,
                        assigns@.len() as int,
                        floats.math(),
                    ) {
                        Ok(row) => enc_key(row).len(),
                        Err(_) => 0,
                    },
                ),
            ),
            final(self).mutated == old(self).mutated,
            ends(
                *old(self),
                *final(self),
                failure(r),
                on_data(
                    old(self).state(),
                    row_set(
                        old(self).rows(),
                        table@,
                        (hit.0@, vals(hit.1@)),
                        assigns@,
                        old(self).lim(),
                        floats.math(),
                    ),
                ),
            ),
    {
        let new = match assign_row(table, &hit.1, assigns, at, floats) {
            Ok(v) => v,
            Err(e) => return Err(e),
        };
        match self.put_data(hit.0.as_slice(), encode_key(new.as_slice()).as_slice()) {
            Ok(_) => {},
            Err(e) => return Err(e),
        }
        self.move_entries(table, &hit.1, &new)
    }

    /// Change the rows a filter selects. Gives back how many.
    pub fn set<M: Fn(BinaryOp, u64, u64) -> u64, T: Fn(u64) -> String>(
        &mut self,
        table_name: &str,
        filter: Option<&Expr>,
        assigns: &Vec<Assign>,
        floats: &Floats<M, T>,
    ) -> (r: core::result::Result<u64, ExecError>)
        requires
            old(self).ready(),
            floats.ok(),
        ensures
            final(self).after(old(self)),
            *final(final(self).tx.batch.pager) == *final(old(self).tx.batch.pager),
            old(self).whole() ==> within(
                *old(self),
                *final(self),
                set_cost(
                    old(self).state(),
                    table_name@,
                    ref_term(filter),
                    assigns@,
                    floats.math(),
                ),
            ),
            ({
                let want = set_done(
                    old(self).state(),
                    table_name@,
                    ref_term(filter),
                    assigns@,
                    old(self).lim(),
                    floats.math(),
                );
                &&& ends(*old(self), *final(self), failure(r), first_of(want))
                &&& old(self).whole() ==> (r matches Ok(n) ==> (want->Ok_0).1 == n)
            }),
    {
        let ghost begin = *self;
        let ghost good = self.whole();
        let ghost g = floats.math();
        let ghost f = ref_term(filter);
        let ghost want = set_done(begin.state(), table_name@, f, assigns@, begin.lim(), g);
        let table = match load_table_from(self, table_name) {
            Ok(t) => t,
            Err(e) => return Err(e),
        };
        let ghost t = table@;
        if let Some(x) = filter {
            if let Err(e) = validate_columns(&table, x) {
                return Err(e);
            }
        }
        let at = match find_targets(&table, assigns) {
            Ok(v) => v,
            Err(e) => return Err(e),
        };
        let plan = match plan_access(&table, filter) {
            Ok(p) => p,
            Err(e) => return Err(e),
        };
        let found = match fetch_rows(self, &table, &plan, floats) {
            Ok(v) => v,
            Err(e) => return Err(e),
        };
        let ghost all = hits(found@);
        let len: usize = found.len();
        proof {
            assert(all.take(0) =~= Seq::empty());
            if good {
                assert(selected(begin.state(), table_name@, f, g) == Ok::<(Tab, Seq<Hit>), Fail>(
                    (t, all),
                ));
                assert(first_of(want) == on_data(
                    State { touched: begin.mutated || all.len() > 0, ..begin.state() },
                    rows_set(begin.rows(), t, all, assigns@, begin.lim(), g),
                ));
            }
        }
        for i in 0..len
            invariant
                len == found@.len(),
                t == table@,
                all == hits(found@),
                aims(t, assigns@, at@),
                floats.ok(),
                full_rows(found@, t.columns.len()),
                begin == *old(self),
                good == begin.whole(),
                self.after(&begin),
                within(
                    begin,
                    *self,
                    (
                        (i as nat) * (2 * t.columns.len() + 1),
                        set_bytes(t, all.take(i as int), assigns@, g),
                    ),
                ),
                good ==> selected(begin.state(), table_name@, ref_term(filter), g) == Ok::<
                    (Tab, Seq<Hit>),
                    Fail,
                >((t, all)),
                self.mutated == (begin.mutated || i > 0),
                *final(self.tx.batch.pager) == *final(begin.tx.batch.pager),
                g == floats.math(),
                want == set_done(
                    begin.state(),
                    table_name@,
                    ref_term(filter),
                    assigns@,
                    begin.lim(),
                    g,
                ),
                good ==> first_of(want) == on_data(
                    State { touched: begin.mutated || all.len() > 0, ..begin.state() },
                    rows_set(begin.rows(), t, all, assigns@, begin.lim(), g),
                ),
                good ==> self.whole() && self.schema() == begin.schema() && rows_set(
                    begin.rows(),
                    t,
                    all.take(i as int),
                    assigns@,
                    begin.lim(),
                    g,
                ) == Ok::<Bytes, Fail>(self.rows()),
        {
            proof {
                lemma_once_more(i as nat, len as nat, 2 * t.columns.len() + 1);
                lemma_set_bytes(t, all, assigns@, g, i as int + 1, len as int);
                assert(all.take(len as int) =~= all);
                let now = all.take(i as int + 1);
                assert(now.drop_last() =~= all.take(i as int));
                assert(now.last() == (found@[i as int].0@, vals(found@[i as int].1@)));
                lemma_rows_set_fails(
                    begin.rows(),
                    t,
                    all,
                    assigns@,
                    begin.lim(),
                    g,
                    i as int + 1,
                );
            }
            match self.set_row(&table, &found[i], assigns, &at, floats) {
                Ok(_) => {},
                Err(e) => return Err(e),
            }
            self.mark();
        }
        proof {
            assert(all.take(len as int) =~= all);
            if good {
                assert((want->Ok_0).1 == all.len());
            }
        }
        Ok(len as u64)
    }
}

} // verus!
