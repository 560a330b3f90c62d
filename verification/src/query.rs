//! The whole read pipeline: plan, fetch, filter, join, order, limit,
//! project.

use vstd::prelude::*;
use vstd::slice::slice_subrange;

use crate::ast::{opt_term, BinaryOp, ColumnRef, Direction, Expr, Get, Name, Term};
use crate::catalog::{ints, Col, Tab, Table};
use crate::db::lookup;
use crate::encoding::{dec_key, decode_key, vals, Value};
use crate::exec_error::{ExecError, Fail};
use crate::join::{resolved, tabs, width, Bound};
use crate::plan::{planned, plan_access, Access, AccessPlan, Path, Way};
use crate::rows::{
    copy_values, decode_row, known, object_prefix, place, position_in, probe_at, probe_prefix,
    range_at, row_at, row_key, row_names, row_of, validate_columns, RowScope,
};
use crate::scan::Item;
use crate::sorting::{arranged, rows_of, sort_rows, Row};
use crate::source::{items, listing, load_table_from, table_in, Source};
use crate::store::Bytes;
use crate::strings::owned;
use crate::value_ops::{check, holds_in, Floats, Math, Scope};

verus! {

// ---------------------------------------------------------------------
// fetching
// ---------------------------------------------------------------------

/// A row with the key it stands at.
pub type Hit = (Seq<u8>, Row);

pub type Hits = core::result::Result<Seq<Hit>, Fail>;

/// Fetched rows: row keys with decoded column values.
pub type Fetched = Vec<(Vec<u8>, Vec<Value>)>;

pub open spec fn hits(v: Seq<(Vec<u8>, Vec<Value>)>) -> Seq<Hit> {
    Seq::new(v.len(), |i: int| (v[i].0@, vals(v[i].1@)))
}

/// The rows of some hits.
pub open spec fn bare(h: Seq<Hit>) -> Seq<Row> {
    Seq::new(h.len(), |i: int| h[i].1)
}

/// The rows stored bytes spell, up to the first that spell none.
pub open spec fn read_all(cs: Seq<Col>, raw: Seq<Item>) -> Hits
    decreases raw.len(),
{
    if raw.len() == 0 {
        Ok(Seq::empty())
    } else {
        match read_all(cs, raw.drop_last()) {
            Err(e) => Err(e),
            Ok(h) => match row_of(cs, raw.last().1) {
                Some(row) => Ok(h.push((raw.last().0, row))),
                None => Err(Fail::Exec),
            },
        }
    }
}

/// The row an index entry points at.
pub open spec fn followed(m: Bytes, t: Tab, entry: Seq<u8>) -> core::result::Result<Hit, Fail> {
    match dec_key(entry) {
        None => Err(Fail::Exec),
        Some(vs) => if vs.len() < 3 {
            Err(Fail::Exec)
        } else {
            match lookup(m, row_at(t.id, vs.skip(2))) {
                None => Err(Fail::Exec),
                Some(b) => match row_of(t.columns, b) {
                    Some(row) => Ok((row_at(t.id, vs.skip(2)), row)),
                    None => Err(Fail::Exec),
                },
            }
        },
    }
}

/// The rows some index entries point at.
pub open spec fn follow_all(m: Bytes, t: Tab, entries: Seq<Item>) -> Hits
    decreases entries.len(),
{
    if entries.len() == 0 {
        Ok(Seq::empty())
    } else {
        match follow_all(m, t, entries.drop_last()) {
            Err(e) => Err(e),
            Ok(h) => match followed(m, t, entries.last().0) {
                Err(e) => Err(e),
                Ok(hit) => Ok(h.push(hit)),
            },
        }
    }
}

/// What an access path reaches.
pub open spec fn reached(m: Bytes, t: Tab, p: Path) -> Hits {
    match p {
        Path::KeyLookup(vs) => match lookup(m, row_at(t.id, vs)) {
            None => Ok(Seq::empty()),
            Some(b) => match row_of(t.columns, b) {
                Some(row) => Ok(seq![(row_at(t.id, vs), row)]),
                None => Err(Fail::Exec),
            },
        },
        Path::IndexScan(_, id, v) => follow_all(m, t, listing(m, probe_at(id, v))),
        Path::SeqScan => read_all(t.columns, listing(m, range_at(t.id))),
    }
}

/// The hits on which a condition holds, up to the first on which it fails.
pub open spec fn sifted(t: Tab, h: Seq<Hit>, e: Term, g: Math) -> Hits
    decreases h.len(),
{
    if h.len() == 0 {
        Ok(Seq::empty())
    } else {
        match sifted(t, h.drop_last(), e, g) {
            Err(x) => Err(x),
            Ok(kept) => match holds_in(e, row_names(t, h.last().1), g) {
                Err(x) => Err(x),
                Ok(true) => Ok(kept.push(h.last())),
                Ok(false) => Ok(kept),
            },
        }
    }
}

/// What a plan fetches.
pub open spec fn fetched(m: Bytes, t: Tab, w: Way, g: Math) -> Hits {
    match reached(m, t, w.path) {
        Err(e) => Err(e),
        Ok(h) => match w.residual {
            None => Ok(h),
            Some(e) => sifted(t, h, e, g),
        },
    }
}

/// A list of rows against what it should be, read from a source.
pub open spec fn fetches<V: Source>(
    view: V,
    r: core::result::Result<Fetched, ExecError>,
    want: Hits,
) -> bool {
    view.whole() ==> match r {
        Ok(v) => want == Ok::<Seq<Hit>, Fail>(hits(v@)),
        Err(e) => (e.fail() is Storage && !view.steady()) || want == Err::<Seq<Hit>, Fail>(
            e.fail(),
        ),
    }
}

/// Every fetched row has a value for every column.
pub open spec fn full_rows(v: Seq<(Vec<u8>, Vec<Value>)>, n: nat) -> bool {
    forall|i: int| 0 <= i < v.len() ==> (#[trigger] v[i]).1@.len() == n
}

proof fn lemma_read_all_fails(cs: Seq<Col>, raw: Seq<Item>, n: int)
    requires
        0 <= n <= raw.len(),
        read_all(cs, raw.take(n)) is Err,
    ensures
        read_all(cs, raw) == read_all(cs, raw.take(n)),
    decreases raw.len() - n,
{
    if n < raw.len() {
        assert(raw.take(n + 1).drop_last() =~= raw.take(n));
        lemma_read_all_fails(cs, raw, n + 1);
    } else {
        assert(raw.take(n) =~= raw);
    }
}

/// Rows that cannot be read fail in one way only.
pub proof fn lemma_read_all_kind(cs: Seq<Col>, raw: Seq<Item>)
    ensures
        read_all(cs, raw) matches Err(e) ==> e is Exec,
    decreases raw.len(),
{
    if raw.len() > 0 {
        lemma_read_all_kind(cs, raw.drop_last());
    }
}

proof fn lemma_follow_all_fails(m: Bytes, t: Tab, entries: Seq<Item>, n: int)
    requires
        0 <= n <= entries.len(),
        follow_all(m, t, entries.take(n)) is Err,
    ensures
        follow_all(m, t, entries) == follow_all(m, t, entries.take(n)),
    decreases entries.len() - n,
{
    if n < entries.len() {
        assert(entries.take(n + 1).drop_last() =~= entries.take(n));
        lemma_follow_all_fails(m, t, entries, n + 1);
    } else {
        assert(entries.take(n) =~= entries);
    }
}

proof fn lemma_sifted_fails(t: Tab, h: Seq<Hit>, e: Term, g: Math, n: int)
    requires
        0 <= n <= h.len(),
        sifted(t, h.take(n), e, g) is Err,
    ensures
        sifted(t, h, e, g) == sifted(t, h.take(n), e, g),
    decreases h.len() - n,
{
    if n < h.len() {
        assert(h.take(n + 1).drop_last() =~= h.take(n));
        lemma_sifted_fails(t, h, e, g, n + 1);
    } else {
        assert(h.take(n) =~= h);
    }
}

pub(crate) fn scan_table<V: Source>(view: &V, table: &Table) -> (r: core::result::Result<Fetched, ExecError>)
    requires
        view.ready(),
    ensures
        fetches(*view, r, reached(view.rows(), table@, Path::SeqScan)),
        r matches Ok(v) ==> full_rows(v@, table@.columns.len()),
{
    let prefix = object_prefix(table.id);
    let raw = match view.view_scan(prefix.as_slice()) {
        Ok(v) => v,
        Err(e) => return Err(e),
    };
    let ghost all = items(raw@);
    let ghost cs = table@.columns;
    let mut out: Fetched = Vec::new();
    let len: usize = raw.len();
    proof {
        assert(hits(out@) =~= Seq::empty());
        assert(all.take(0) =~= Seq::empty());
    }
    for i in 0..len
        invariant
            len == raw@.len(),
            all == items(raw@),
            cs == table@.columns,
            view.whole() ==> all == listing(view.rows(), range_at(table@.id)),
            read_all(cs, all.take(i as int)) == Ok::<Seq<Hit>, Fail>(hits(out@)),
            full_rows(out@, cs.len()),
    {
        proof {
            let now = all.take(i as int + 1);
            assert(now.drop_last() =~= all.take(i as int));
            assert(now.last() == (raw@[i as int].0@, raw@[i as int].1@));
        }
        match decode_row(table, raw[i].1.as_slice()) {
            Ok(values) => {
                let ghost had = out@;
                let key = crate::bytes::copy_vec(raw[i].0.as_slice());
                out.push((key, values));
                proof {
                    assert(hits(out@) =~= hits(had).push((raw@[i as int].0@, vals(values@))));
                }
            },
            Err(e) => {
                proof {
                    lemma_read_all_fails(cs, all, i as int + 1);
                }
                return Err(e);
            },
        }
    }
    proof {
        assert(all.take(len as int) =~= all);
    }
    Ok(out)
}

fn follow<V: Source>(view: &V, table: &Table, entry: &[u8]) -> (r: core::result::Result<
    (Vec<u8>, Vec<Value>),
    ExecError,
>)
    requires
        view.ready(),
    ensures
        r matches Ok(h) ==> h.1@.len() == table@.columns.len(),
        view.whole() ==> match r {
            Ok(h) => followed(view.rows(), table@, entry@) == Ok::<Hit, Fail>((h.0@, vals(h.1@))),
            Err(e) => (e.fail() is Storage && !view.steady()) || followed(
                view.rows(),
                table@,
                entry@,
            ) == Err::<Hit, Fail>(e.fail()),
        },
{
    let decoded: Vec<Value> = match decode_key(entry) {
        Ok(v) => v,
        Err(_) => return Err(ExecError::Exec(owned("index entry does not decode"))),
    };
    // (index id, value, pk...)
    if decoded.len() < 3 {
        return Err(ExecError::Exec(owned("index entry is too short, this is a bug")));
    }
    let pk = slice_subrange(decoded.as_slice(), 2, decoded.len());
    proof {
        assert(vals(pk@) =~= vals(decoded@).skip(2));
    }
    let key = row_key(table.id, pk);
    match view.view_get(key.as_slice()) {
        Ok(Some(bytes)) => match decode_row(table, bytes.as_slice()) {
            Ok(values) => Ok((key, values)),
            Err(e) => Err(e),
        },
        Ok(None) => Err(ExecError::Exec(owned("index points at a missing row, this is a bug"))),
        Err(e) => Err(e),
    }
}

fn scan_index<V: Source>(view: &V, table: &Table, id: u64, value: &Value) -> (r:
    core::result::Result<Fetched, ExecError>)
    requires
        view.ready(),
    ensures
        fetches(
            *view,
            r,
            follow_all(view.rows(), table@, listing(view.rows(), probe_at(id, value@))),
        ),
        r matches Ok(v) ==> full_rows(v@, table@.columns.len()),
{
    let prefix = probe_prefix(id, value);
    let raw = match view.view_scan(prefix.as_slice()) {
        Ok(v) => v,
        Err(e) => return Err(e),
    };
    let ghost all = items(raw@);
    let ghost m = view.rows();
    let ghost t = table@;
    let mut out: Fetched = Vec::new();
    let len: usize = raw.len();
    proof {
        assert(hits(out@) =~= Seq::empty());
        assert(all.take(0) =~= Seq::empty());
    }
    for i in 0..len
        invariant
            len == raw@.len(),
            all == items(raw@),
            m == view.rows(),
            t == table@,
            view.ready(),
            view.whole() ==> all == listing(view.rows(), probe_at(id, value@)),
            view.whole() ==> follow_all(m, t, all.take(i as int)) == Ok::<Seq<Hit>, Fail>(
                hits(out@),
            ),
            full_rows(out@, t.columns.len()),
    {
        proof {
            let now = all.take(i as int + 1);
            assert(now.drop_last() =~= all.take(i as int));
            assert(now.last() == (raw@[i as int].0@, raw@[i as int].1@));
        }
        match follow(view, table, raw[i].0.as_slice()) {
            Ok(hit) => {
                let ghost had = out@;
                out.push(hit);
                proof {
                    assert(hits(out@) =~= hits(had).push((hit.0@, vals(hit.1@))));
                }
            },
            Err(e) => {
                proof {
                    if view.whole() && follow_all(m, t, all.take(i as int + 1)) is Err {
                        lemma_follow_all_fails(m, t, all, i as int + 1);
                    }
                }
                return Err(e);
            },
        }
    }
    proof {
        assert(all.take(len as int) =~= all);
    }
    Ok(out)
}

fn look_up<V: Source>(view: &V, table: &Table, key_values: &Vec<Value>) -> (r:
    core::result::Result<Fetched, ExecError>)
    requires
        view.ready(),
    ensures
        fetches(
            *view,
            r,
            reached(view.rows(), table@, Path::KeyLookup(vals(key_values@))),
        ),
        r matches Ok(v) ==> full_rows(v@, table@.columns.len()),
{
    let mut out: Fetched = Vec::new();
    let key = row_key(table.id, key_values.as_slice());
    match view.view_get(key.as_slice()) {
        Ok(Some(bytes)) => match decode_row(table, bytes.as_slice()) {
            Ok(values) => {
                out.push((key, values));
                proof {
                    assert(hits(out@) =~= seq![
                        (row_at(table@.id, vals(key_values@)), vals(values@)),
                    ]);
                }
                Ok(out)
            },
            Err(e) => Err(e),
        },
        Ok(None) => {
            proof {
                assert(hits(out@) =~= Seq::empty());
            }
            Ok(out)
        },
        Err(e) => Err(e),
    }
}

fn sift<M: Fn(BinaryOp, u64, u64) -> u64, T: Fn(u64) -> String>(
    table: &Table,
    rows: Fetched,
    cond: &Expr,
    floats: &Floats<M, T>,
) -> (r: core::result::Result<Fetched, ExecError>)
    requires
        floats.ok(),
        full_rows(rows@, table@.columns.len()),
    ensures
        match r {
            Ok(v) => sifted(table@, hits(rows@), cond@, floats.math()) == Ok::<Seq<Hit>, Fail>(
                hits(v@),
            ) && full_rows(v@, table@.columns.len()),
            Err(e) => sifted(table@, hits(rows@), cond@, floats.math()) == Err::<Seq<Hit>, Fail>(
                e.fail(),
            ),
        },
{
    let ghost all = hits(rows@);
    let ghost given = rows@;
    let ghost t = table@;
    let mut left: Fetched = rows;
    let mut out: Fetched = Vec::new();
    let len: usize = left.len();
    proof {
        assert(hits(out@) =~= Seq::empty());
        assert(all.take(0) =~= Seq::empty());
    }
    for i in 0..len
        invariant
            len == left@.len() == given.len(),
            left@ == given,
            given == rows@,
            all == hits(given),
            t == table@,
            floats.ok(),
            full_rows(given, t.columns.len()),
            sifted(t, all.take(i as int), cond@, floats.math()) == Ok::<Seq<Hit>, Fail>(hits(out@)),
            full_rows(out@, t.columns.len()),
    {
        proof {
            let now = all.take(i as int + 1);
            assert(now.drop_last() =~= all.take(i as int));
            assert(now.last() == (given[i as int].0@, vals(given[i as int].1@)));
        }
        let scope = RowScope { table, values: &left[i].1 };
        match check(cond, &scope, floats) {
            Ok(true) => {
                let ghost had = out@;
                let key = crate::bytes::copy_vec(left[i].0.as_slice());
                let values = copy_values(left[i].1.as_slice());
                proof {
                    assert(vals(values@).len() == vals(given[i as int].1@).len());
                }
                out.push((key, values));
                proof {
                    assert(hits(out@) =~= hits(had).push(all[i as int]));
                }
            },
            Ok(false) => {},
            Err(e) => {
                proof {
                    lemma_sifted_fails(t, all, cond@, floats.math(), i as int + 1);
                }
                return Err(e);
            },
        }
    }
    proof {
        assert(all.take(len as int) =~= all);
    }
    Ok(out)
}

/// Fetch the rows of an access plan, residual filter already applied.
pub fn fetch_rows<V: Source, M: Fn(BinaryOp, u64, u64) -> u64, T: Fn(u64) -> String>(
    view: &V,
    table: &Table,
    plan: &AccessPlan,
    floats: &Floats<M, T>,
) -> (r: core::result::Result<Fetched, ExecError>)
    requires
        view.ready(),
        floats.ok(),
    ensures
        fetches(*view, r, fetched(view.rows(), table@, plan@, floats.math())),
        r matches Ok(v) ==> full_rows(v@, table@.columns.len()),
{
    let found = match &plan.access {
        Access::KeyLookup { key_values } => look_up(view, table, key_values),
        Access::IndexScan { column: _, index_id, value } => scan_index(
            view,
            table,
            *index_id,
            value,
        ),
        Access::SeqScan => scan_table(view, table),
    };
    match found {
        Err(e) => Err(e),
        Ok(rows) => match &plan.residual {
            None => Ok(rows),
            Some(cond) => sift(table, rows, cond, floats),
        },
    }
}

/// The rows alone.
pub fn drop_keys(found: Fetched) -> (r: Vec<Vec<Value>>)
    ensures
        rows_of(r@) == bare(hits(found@)),
        forall|n: nat| #[trigger]
            full_rows(found@, n) ==> forall|i: int|
                0 <= i < r@.len() ==> (#[trigger] r@[i])@.len() == n,
{
    let mut out: Vec<Vec<Value>> = Vec::new();
    let len: usize = found.len();
    for i in 0..len
        invariant
            len == found@.len(),
            out@.len() == i,
            forall|k: int| 0 <= k < i ==> vals((#[trigger] out@[k])@) == vals(found@[k].1@),
    {
        out.push(copy_values(found[i].1.as_slice()));
    }
    proof {
        assert(rows_of(out@) =~= bare(hits(found@)));
        assert forall|n: nat| #[trigger] full_rows(found@, n) implies forall|i: int|
            0 <= i < out@.len() ==> (#[trigger] out@[i])@.len() == n by {
            assert forall|i: int| 0 <= i < out@.len() implies (#[trigger] out@[i])@.len() == n by {
                assert(vals(out@[i]@).len() == vals(found@[i].1@).len());
            }
        }
    }
    out
}

// ---------------------------------------------------------------------
// order, limit, projection
// ---------------------------------------------------------------------

pub type Rows = core::result::Result<Seq<Row>, Fail>;

/// What names some references are.
pub open spec fn names(s: Seq<ColumnRef>) -> Seq<Name> {
    Seq::new(s.len(), |i: int| s[i]@)
}

/// The values at some places of a row.
pub open spec fn cut(row: Row, at: Seq<int>) -> Row {
    Seq::new(at.len(), |i: int| row[at[i]])
}

/// Where some names point.
pub open spec fn spots_of(at: spec_fn(Name) -> Option<int>, ns: Seq<Name>) -> Seq<int> {
    Seq::new(ns.len(), |i: int| at(ns[i])->0)
}

pub open spec fn all_found(at: spec_fn(Name) -> Option<int>, ns: Seq<Name>) -> bool {
    forall|i: int| 0 <= i < ns.len() ==> at(#[trigger] ns[i]) is Some
}

/// Rows sorted by the column the statement names.
pub open spec fn ordered_rows(
    rows: Seq<Row>,
    at: spec_fn(Name) -> Option<int>,
    order: Option<(ColumnRef, Direction)>,
) -> Rows {
    match order {
        None => Ok(rows),
        Some((c, dir)) => match at(c@) {
            Some(pos) => Ok(arranged(rows, pos, dir)),
            None => Err(Fail::Plan),
        },
    }
}

/// At most so many rows.
pub open spec fn limited(rows: Seq<Row>, limit: Option<u64>) -> Seq<Row> {
    match limit {
        Some(n) => if n < rows.len() {
            rows.take(n as int)
        } else {
            rows
        },
        None => rows,
    }
}

/// The columns the statement asks for.
pub open spec fn projected(
    rows: Seq<Row>,
    at: spec_fn(Name) -> Option<int>,
    projection: Option<Vec<ColumnRef>>,
) -> Rows {
    match projection {
        None => Ok(rows),
        Some(cs) => if all_found(at, names(cs@)) {
            Ok(Seq::new(rows.len(), |i: int| cut(rows[i], spots_of(at, names(cs@)))))
        } else {
            Err(Fail::Plan)
        },
    }
}

/// Order, limit and projection, in that order.
pub open spec fn served(rows: Seq<Row>, at: spec_fn(Name) -> Option<int>, get: Get) -> Rows {
    match ordered_rows(rows, at, get.order) {
        Err(e) => Err(e),
        Ok(sorted) => projected(limited(sorted, get.limit), at, get.projection),
    }
}

/// Every row is that wide.
pub open spec fn wide(rows: Seq<Vec<Value>>, n: nat) -> bool {
    forall|i: int| 0 <= i < rows.len() ==> (#[trigger] rows[i])@.len() == n
}

fn limit_rows(rows: Vec<Vec<Value>>, limit: Option<u64>) -> (r: Vec<Vec<Value>>)
    ensures
        rows_of(r@) == limited(rows_of(rows@), limit),
        forall|n: nat| #[trigger] wide(rows@, n) ==> wide(r@, n),
{
    let mut out = rows;
    if let Some(n) = limit {
        if n < out.len() as u64 {
            out.truncate(n as usize);
            proof {
                assert(rows_of(out@) =~= rows_of(rows@).take(n as int));
            }
        }
    }
    out
}

fn project_rows(rows: &Vec<Vec<Value>>, at: &Vec<usize>, Ghost(n): Ghost<nat>) -> (r: Vec<Vec<Value>>)
    requires
        wide(rows@, n),
        forall|i: int| 0 <= i < at@.len() ==> (#[trigger] at@[i]) < n,
    ensures
        rows_of(r@) == Seq::new(rows@.len(), |i: int| cut(rows_of(rows@)[i], ints(at@))),
{
    let mut out: Vec<Vec<Value>> = Vec::new();
    let len: usize = rows.len();
    let width: usize = at.len();
    for i in 0..len
        invariant
            len == rows@.len(),
            width == at@.len(),
            wide(rows@, n),
            forall|i: int| 0 <= i < at@.len() ==> (#[trigger] at@[i]) < n,
            out@.len() == i,
            forall|k: int|
                0 <= k < i ==> vals((#[trigger] out@[k])@) == cut(vals(rows@[k]@), ints(at@)),
    {
        let mut row: Vec<Value> = Vec::new();
        for j in 0..width
            invariant
                i < len == rows@.len(),
                width == at@.len(),
                wide(rows@, n),
                forall|i: int| 0 <= i < at@.len() ==> (#[trigger] at@[i]) < n,
                row@.len() == j,
                forall|k: int|
                    0 <= k < j ==> (#[trigger] row@[k])@ == rows@[i as int]@[at@[k] as int]@,
        {
            proof {
                assert(rows@[i as int]@.len() == n);
            }
            row.push(rows[i][at[j]].duplicate());
        }
        proof {
            assert(vals(row@) =~= cut(vals(rows@[i as int]@), ints(at@))) by {
                assert(rows@[i as int]@.len() == n);
            }
        }
        out.push(row);
    }
    proof {
        assert(rows_of(out@) =~= Seq::new(
            rows@.len(),
            |i: int| cut(rows_of(rows@)[i], ints(at@)),
        ));
    }
    out
}

proof fn lemma_wide(rows: Seq<Vec<Value>>, out: Seq<Vec<Value>>, pos: int, dir: Direction, n: nat)
    requires
        wide(rows, n),
        rows_of(out) == arranged(rows_of(rows), pos, dir),
    ensures
        wide(out, n),
{
    assert forall|i: int| 0 <= i < out.len() implies (#[trigger] out[i])@.len() == n by {
        assert(rows_of(out).contains(rows_of(out)[i]));
        crate::sorting::lemma_arranged_members(rows_of(rows), pos, dir, vals(out[i]@));
        let k = choose|k: int| 0 <= k < rows_of(rows).len() && rows_of(rows)[k] == vals(out[i]@);
        assert(rows[k]@.len() == n);
        assert(vals(rows[k]@).len() == vals(out[i]@).len());
    }
}

/// Where the names of a statement point.
pub trait Places {
    spec fn at(&self) -> spec_fn(Name) -> Option<int>;

    /// How wide the rows are the names point into.
    spec fn span(&self) -> nat;

    spec fn set_up(&self) -> bool;

    fn find(&self, c: &ColumnRef) -> (r: core::result::Result<usize, ExecError>)
        requires
            self.set_up(),
        ensures
            match r {
                Ok(i) => (self.at())(c@) == Some(i as int) && i < self.span(),
                Err(e) => (self.at())(c@) is None && e.fail() is Plan,
            },
    ;
}

/// Names inside one table.
pub open spec fn single(t: Tab) -> spec_fn(Name) -> Option<int> {
    |n: Name| place(t, n)
}

impl Places for Table {
    open spec fn at(&self) -> spec_fn(Name) -> Option<int> {
        single(self@)
    }

    open spec fn span(&self) -> nat {
        self@.columns.len()
    }

    open spec fn set_up(&self) -> bool {
        true
    }

    fn find(&self, c: &ColumnRef) -> (r: core::result::Result<usize, ExecError>) {
        position_in(self, c)
    }
}

/// Names across all tables of a join.
pub open spec fn across(ts: Seq<Tab>) -> spec_fn(Name) -> Option<int> {
    |n: Name| resolved(ts, ts.len() as int, n)
}

impl Places for Bound {
    open spec fn at(&self) -> spec_fn(Name) -> Option<int> {
        across(tabs(self.tables@))
    }

    open spec fn span(&self) -> nat {
        width(tabs(self.tables@), self.tables@.len() as int)
    }

    open spec fn set_up(&self) -> bool {
        self.wf()
    }

    fn find(&self, c: &ColumnRef) -> (r: core::result::Result<usize, ExecError>) {
        self.resolve_within(c, self.tables.len())
    }
}

/// A list of rows against what it should be.
pub open spec fn is_rows(r: core::result::Result<Vec<Vec<Value>>, ExecError>, want: Rows) -> bool {
    match r {
        Ok(v) => want == Ok::<Seq<Row>, Fail>(rows_of(v@)),
        Err(e) => want == Err::<Seq<Row>, Fail>(e.fail()),
    }
}

/// Order, limit and projection.
pub(crate) fn serve<P: Places>(places: &P, rows: Vec<Vec<Value>>, get: &Get) -> (r: core::result::Result<
    Vec<Vec<Value>>,
    ExecError,
>)
    requires
        places.set_up(),
        wide(rows@, places.span()),
    ensures
        is_rows(r, served(rows_of(rows@), places.at(), *get)),
{
    let ghost at = places.at();
    let sorted: Vec<Vec<Value>> = match &get.order {
        None => rows,
        Some((col, dir)) => {
            let pos: usize = match places.find(col) {
                Ok(p) => p,
                Err(e) => return Err(e),
            };
            let out = sort_rows(rows, pos, *dir);
            proof {
                lemma_wide(rows@, out@, pos as int, *dir, places.span());
            }
            out
        },
    };
    let short = limit_rows(sorted, get.limit);
    match &get.projection {
        None => Ok(short),
        Some(cols) => {
            let mut spots: Vec<usize> = Vec::new();
            let len: usize = cols.len();
            let ghost ns = names(cols@);
            for i in 0..len
                invariant
                    len == cols@.len(),
                    ns == names(cols@),
                    at == places.at(),
                    places.set_up(),
                    get.projection == Some(*cols),
                    ordered_rows(rows_of(rows@), at, get.order) is Ok,
                    spots@.len() == i,
                    forall|k: int| 0 <= k < i ==> (#[trigger] spots@[k]) < places.span(),
                    forall|k: int| 0 <= k < i ==> at(#[trigger] ns[k]) == Some(spots@[k] as int),
            {
                proof {
                    assert(ns[i as int] == cols@[i as int]@);
                }
                match places.find(&cols[i]) {
                    Ok(p) => spots.push(p),
                    Err(e) => {
                        proof {
                            assert(at(ns[i as int]) is None);
                            assert(!all_found(at, ns));
                        }
                        return Err(e);
                    },
                }
            }
            proof {
                assert(ints(spots@) =~= spots_of(at, ns));
            }
            let out = project_rows(&short, &spots, Ghost(places.span()));
            proof {
                let want = Seq::new(
                    short@.len(),
                    |i: int| cut(rows_of(short@)[i], spots_of(at, ns)),
                );
                assert(rows_of(out@) =~= want);
            }
            Ok(out)
        },
    }
}

// ---------------------------------------------------------------------
// one table
// ---------------------------------------------------------------------

/// What a read of one table gives.
pub open spec fn got_one(m: Bytes, schema: Bytes, get: Get, g: Math) -> Rows {
    match table_in(schema, get.table@) {
        Err(e) => Err(e),
        Ok(t) => if get.filter matches Some(f) && !known(t, f@) {
            Err(Fail::Plan)
        } else {
            match planned(t, opt_term(get.filter)) {
                Err(e) => Err(e),
                Ok(w) => match fetched(m, t, w, g) {
                    Err(e) => Err(e),
                    Ok(h) => served(bare(h), single(t), get),
                },
            }
        },
    }
}

/// A list of rows read from a source, against what it should be.
pub open spec fn reads<V: Source>(
    view: V,
    r: core::result::Result<Vec<Vec<Value>>, ExecError>,
    want: Rows,
) -> bool {
    view.whole() ==> match r {
        Ok(v) => want == Ok::<Seq<Row>, Fail>(rows_of(v@)),
        Err(e) => (e.fail() is Storage && !view.steady()) || want == Err::<Seq<Row>, Fail>(
            e.fail(),
        ),
    }
}

pub(crate) fn get_one<V: Source, M: Fn(BinaryOp, u64, u64) -> u64, T: Fn(u64) -> String>(
    view: &V,
    get: &Get,
    floats: &Floats<M, T>,
) -> (r: core::result::Result<Vec<Vec<Value>>, ExecError>)
    requires
        view.ready(),
        floats.ok(),
    ensures
        reads(*view, r, got_one(view.rows(), view.schema(), *get, floats.math())),
{
    let table = match load_table_from(view, get.table.as_str()) {
        Ok(t) => t,
        Err(e) => return Err(e),
    };
    if let Some(f) = &get.filter {
        if let Err(e) = validate_columns(&table, f) {
            return Err(e);
        }
    }
    let plan = match plan_access(&table, get.filter.as_ref()) {
        Ok(p) => p,
        Err(e) => return Err(e),
    };
    let found = match fetch_rows(view, &table, &plan, floats) {
        Ok(v) => v,
        Err(e) => return Err(e),
    };
    let rows = drop_keys(found);
    serve(&table, rows, get)
}

} // verus!
