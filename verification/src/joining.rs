//! Running joins. The strategy of a step only decides which right rows
//! become candidates; the full on-condition runs on every candidate.

use vstd::prelude::*;
use vstd::slice::slice_subrange;

use crate::ast::{BinaryOp, Expr, Get, Join, JoinKind, Term};
use crate::catalog::{ints, key_spots, lemma_key_spots, Tab, Table};
use crate::encoding::{vals, Val, Value};
use crate::exec_error::{ExecError, Fail};
use crate::join::{
    join_planned, joinable, joint_names, known_within, plan_join, probe_suits, tabs, width, Bound,
    BoundScope, JoinStrategy, Probe,
};
use crate::plan::{Access, AccessPlan, Path};
use crate::query::{
    across, bare, drop_keys, fetch_rows, got_one, reached, reads, serve, served, wide, get_one,
    Rows,
};
use crate::rows::{append_values, copy_values};
use crate::sorting::{rows_of, Row};
use crate::source::{load_table_from, table_in, Source};
use crate::store::Bytes;
use crate::value_ops::{check, coerce, fitted, holds_in, Floats, Math, Scope};

verus! {

/// The base table and the first `n` joined ones.
pub open spec fn loaded(schema: Bytes, get: Get, n: int) -> core::result::Result<Seq<Tab>, Fail>
    decreases n,
{
    if n <= 0 {
        match table_in(schema, get.table@) {
            Ok(t) => Ok(seq![t]),
            Err(e) => Err(e),
        }
    } else {
        match loaded(schema, get, n - 1) {
            Err(e) => Err(e),
            Ok(ts) => match table_in(schema, get.joins@[n - 1].table@) {
                Ok(t) => Ok(ts.push(t)),
                Err(e) => Err(e),
            },
        }
    }
}

/// Whether every condition of a join statement mentions only columns in its
/// scope: each on-condition sees the tables joined so far plus its own.
pub open spec fn scoped(ts: Seq<Tab>, get: Get) -> bool {
    &&& forall|i: int|
        0 <= i < get.joins@.len() ==> known_within(ts, i + 2, (#[trigger] get.joins@[i]).on@)
    &&& get.filter matches Some(f) ==> known_within(ts, ts.len() as int, f@)
}

/// The tables of a join statement, if it can be bound.
pub open spec fn bound_to(schema: Bytes, get: Get) -> core::result::Result<Seq<Tab>, Fail> {
    match loaded(schema, get, get.joins@.len() as int) {
        Err(e) => Err(e),
        Ok(ts) => if joinable(ts) && scoped(ts, get) {
            Ok(ts)
        } else {
            Err(Fail::Plan)
        },
    }
}

/// The strategy of one step.
pub open spec fn strategy(ts: Seq<Tab>, get: Get, step: int) -> Probe {
    join_planned(ts.take(step + 1), ts[step + 1], get.joins@[step].on@)
}

/// Nulls, one per column.
pub open spec fn nulls(n: nat) -> Row {
    Seq::new(n, |i: int| Val::Null)
}

/// Right rows worth testing against a left row.
pub open spec fn candidates(m: Bytes, ts: Seq<Tab>, step: int, p: Probe, left: Row) -> Rows {
    let right = ts[step + 1];
    match p {
        Probe::NestedLoop => found_rows(m, right, Path::SeqScan),
        Probe::KeyProbe(n) => match joint_names(ts, step + 1, left)(n) {
            Err(e) => Err(e),
            Ok(v) => if v is Null {
                Ok(Seq::empty())
            } else {
                match fitted(v, right.columns[key_spots(right.columns)[0]].ty, false) {
                    Err(e) => Err(e),
                    Ok(w) => found_rows(m, right, Path::KeyLookup(seq![w])),
                }
            },
        },
        Probe::IndexProbe(n, c, id) => match joint_names(ts, step + 1, left)(n) {
            Err(e) => Err(e),
            Ok(v) => match fitted(v, right.columns[c].ty, true) {
                Err(e) => Err(e),
                Ok(w) => found_rows(m, right, Path::IndexScan(c, id, w)),
            },
        },
    }
}

/// What an access path reaches, without the keys.
pub open spec fn found_rows(m: Bytes, t: Tab, p: Path) -> Rows {
    match reached(m, t, p) {
        Ok(h) => Ok(bare(h)),
        Err(e) => Err(e),
    }
}

/// The combined rows on which the condition holds.
pub open spec fn matched(ts: Seq<Tab>, n: int, left: Row, cands: Seq<Row>, on: Term, g: Math) -> Rows
    decreases cands.len(),
{
    if cands.len() == 0 {
        Ok(Seq::empty())
    } else {
        match matched(ts, n, left, cands.drop_last(), on, g) {
            Err(e) => Err(e),
            Ok(out) => match holds_in(on, joint_names(ts, n, left + cands.last()), g) {
                Err(e) => Err(e),
                Ok(true) => Ok(out.push(left + cands.last())),
                Ok(false) => Ok(out),
            },
        }
    }
}

/// What one left row becomes. A left join keeps a row without a match,
/// padded with nulls.
pub open spec fn joined_one(
    m: Bytes,
    ts: Seq<Tab>,
    step: int,
    kind: JoinKind,
    on: Term,
    p: Probe,
    left: Row,
    g: Math,
) -> Rows {
    match candidates(m, ts, step, p, left) {
        Err(e) => Err(e),
        Ok(cands) => match matched(ts, step + 2, left, cands, on, g) {
            Err(e) => Err(e),
            Ok(out) => if kind is Left && out.len() == 0 {
                Ok(seq![left + nulls(ts[step + 1].columns.len())])
            } else {
                Ok(out)
            },
        },
    }
}

/// What some left rows become, in order.
pub open spec fn joined_all(
    m: Bytes,
    ts: Seq<Tab>,
    step: int,
    kind: JoinKind,
    on: Term,
    p: Probe,
    lefts: Seq<Row>,
    g: Math,
) -> Rows
    decreases lefts.len(),
{
    if lefts.len() == 0 {
        Ok(Seq::empty())
    } else {
        match joined_all(m, ts, step, kind, on, p, lefts.drop_last(), g) {
            Err(e) => Err(e),
            Ok(out) => match joined_one(m, ts, step, kind, on, p, lefts.last(), g) {
                Err(e) => Err(e),
                Ok(more) => Ok(out + more),
            },
        }
    }
}

/// One join step. The nested loop reads its right table even where there is
/// no left row.
pub open spec fn stepped(
    m: Bytes,
    ts: Seq<Tab>,
    step: int,
    kind: JoinKind,
    on: Term,
    p: Probe,
    lefts: Seq<Row>,
    g: Math,
) -> Rows {
    if p is NestedLoop && found_rows(m, ts[step + 1], Path::SeqScan) is Err {
        found_rows(m, ts[step + 1], Path::SeqScan)
    } else {
        joined_all(m, ts, step, kind, on, p, lefts, g)
    }
}

/// The rows after the first `n` joins.
pub open spec fn walked(m: Bytes, ts: Seq<Tab>, get: Get, n: int, g: Math) -> Rows
    decreases n,
{
    if n <= 0 {
        found_rows(m, ts[0], Path::SeqScan)
    } else {
        match walked(m, ts, get, n - 1, g) {
            Err(e) => Err(e),
            Ok(rows) => stepped(
                m,
                ts,
                n - 1,
                get.joins@[n - 1].kind,
                get.joins@[n - 1].on@,
                strategy(ts, get, n - 1),
                rows,
                g,
            ),
        }
    }
}

/// The combined rows on which the filter holds.
pub open spec fn sifted_joint(ts: Seq<Tab>, rows: Seq<Row>, e: Term, g: Math) -> Rows
    decreases rows.len(),
{
    if rows.len() == 0 {
        Ok(Seq::empty())
    } else {
        match sifted_joint(ts, rows.drop_last(), e, g) {
            Err(x) => Err(x),
            Ok(kept) => match holds_in(e, joint_names(ts, ts.len() as int, rows.last()), g) {
                Err(x) => Err(x),
                Ok(true) => Ok(kept.push(rows.last())),
                Ok(false) => Ok(kept),
            },
        }
    }
}

/// What a join gives.
pub open spec fn got_join(m: Bytes, schema: Bytes, get: Get, g: Math) -> Rows {
    match bound_to(schema, get) {
        Err(e) => Err(e),
        Ok(ts) => match walked(m, ts, get, get.joins@.len() as int, g) {
            Err(e) => Err(e),
            Ok(rows) => match get.filter {
                None => served(rows, across(ts), get),
                Some(f) => match sifted_joint(ts, rows, f@, g) {
                    Err(e) => Err(e),
                    Ok(kept) => served(kept, across(ts), get),
                },
            },
        },
    }
}

/// What a read gives.
#[verifier::opaque]
pub open spec fn got(m: Bytes, schema: Bytes, get: Get, g: Math) -> Rows {
    if get.joins@.len() > 0 {
        got_join(m, schema, get, g)
    } else {
        got_one(m, schema, get, g)
    }
}

// ---------------------------------------------------------------------
// binding
// ---------------------------------------------------------------------

pub proof fn lemma_loaded(schema: Bytes, get: Get, n: int)
    requires
        n >= 0,
    ensures
        loaded(schema, get, n) matches Ok(ts) ==> ts.len() == n + 1,
    decreases n,
{
    if n > 0 {
        lemma_loaded(schema, get, n - 1);
    }
}

proof fn lemma_loaded_fails(schema: Bytes, get: Get, m: int, n: int)
    requires
        0 <= m <= n,
        loaded(schema, get, m) is Err,
    ensures
        loaded(schema, get, n) == loaded(schema, get, m),
    decreases n - m,
{
    if m < n {
        lemma_loaded_fails(schema, get, m, n - 1);
    }
}

fn load_all<V: Source>(view: &V, get: &Get) -> (r: core::result::Result<Vec<Table>, ExecError>)
    requires
        view.ready(),
    ensures
        r matches Ok(ts) ==> ts@.len() == get.joins@.len() + 1,
        view.whole() ==> match r {
            Ok(ts) => loaded(view.schema(), *get, get.joins@.len() as int) == Ok::<
                Seq<Tab>,
                Fail,
            >(tabs(ts@)),
            Err(e) => (e.fail() is Storage && !view.steady()) || loaded(
                view.schema(),
                *get,
                get.joins@.len() as int,
            ) == Err::<Seq<Tab>, Fail>(e.fail()),
        },
{
    let ghost sc = view.schema();
    let ghost all = get.joins@.len() as int;
    let mut out: Vec<Table> = Vec::new();
    match load_table_from(view, get.table.as_str()) {
        Ok(t) => {
            out.push(t);
            proof {
                assert(tabs(out@) =~= seq![t@]);
            }
        },
        Err(e) => {
            proof {
                if view.whole() && loaded(sc, *get, 0) is Err {
                    lemma_loaded_fails(sc, *get, 0, all);
                }
            }
            return Err(e);
        },
    }
    let len: usize = get.joins.len();
    for i in 0..len
        invariant
            len == get.joins@.len() == all,
            sc == view.schema(),
            view.ready(),
            out@.len() == i + 1,
            view.whole() ==> loaded(sc, *get, i as int) == Ok::<Seq<Tab>, Fail>(tabs(out@)),
    {
        match load_table_from(view, get.joins[i].table.as_str()) {
            Ok(t) => {
                let ghost had = out@;
                out.push(t);
                proof {
                    assert(tabs(out@) =~= tabs(had).push(t@));
                }
            },
            Err(e) => {
                proof {
                    if view.whole() && loaded(sc, *get, i as int + 1) is Err {
                        lemma_loaded_fails(sc, *get, i as int + 1, all);
                    }
                }
                return Err(e);
            },
        }
    }
    Ok(out)
}

/// The strategies of a bound statement, one per join.
pub open spec fn planned_for(ts: Seq<Tab>, get: Get, ss: Seq<JoinStrategy>) -> bool {
    &&& ss.len() == get.joins@.len()
    &&& forall|i: int|
        0 <= i < ss.len() ==> (#[trigger] ss[i])@ == strategy(ts, get, i) && probe_suits(
            ts[i + 1],
            ss[i]@,
        )
}

/// Load and bind everything a join statement needs; shared between
/// execution and explain so both see the identical plan.
pub fn bind_join_get<V: Source>(view: &V, get: &Get) -> (r: core::result::Result<
    (Bound, Vec<JoinStrategy>),
    ExecError,
>)
    requires
        view.ready(),
    ensures
        r matches Ok((b, ss)) ==> b.wf() && b.tables@.len() == get.joins@.len() + 1 && planned_for(
            tabs(b.tables@),
            *get,
            ss@,
        ) && scoped(tabs(b.tables@), *get),
        view.whole() ==> match r {
            Ok((b, ss)) => bound_to(view.schema(), *get) == Ok::<Seq<Tab>, Fail>(tabs(b.tables@)),
            Err(e) => (e.fail() is Storage && !view.steady()) || bound_to(view.schema(), *get)
                == Err::<Seq<Tab>, Fail>(e.fail()),
        },
{
    let tables = match load_all(view, get) {
        Ok(ts) => ts,
        Err(e) => return Err(e),
    };
    let bound = match Bound::new(tables) {
        Ok(b) => b,
        Err(e) => return Err(e),
    };
    let ghost ts = tabs(bound.tables@);
    let len: usize = get.joins.len();
    proof {
        assert(ts.len() == tabs(tables@).len());
    }
    let count: usize = bound.tables.len();
    // each on-condition sees the tables joined so far plus its own
    for i in 0..len
        invariant
            len == get.joins@.len(),
            ts == tabs(bound.tables@),
            bound.wf(),
            bound.tables@.len() == len + 1 == count,
            view.whole() ==> loaded(view.schema(), *get, len as int) == Ok::<Seq<Tab>, Fail>(ts),
            forall|k: int|
                0 <= k < i ==> known_within(ts, k + 2, (#[trigger] get.joins@[k]).on@),
    {
        if let Err(e) = bound.validate_within(&get.joins[i].on, i + 2) {
            proof {
                assert(!known_within(ts, i as int + 2, get.joins@[i as int].on@));
            }
            return Err(e);
        }
    }
    if let Some(f) = &get.filter {
        if let Err(e) = bound.validate_within(f, bound.tables.len()) {
            return Err(e);
        }
    }
    let mut out: Vec<JoinStrategy> = Vec::new();
    for i in 0..len
        invariant
            len == get.joins@.len(),
            ts == tabs(bound.tables@),
            bound.tables@.len() == len + 1,
            out@.len() == i,
            forall|k: int|
                0 <= k < i ==> (#[trigger] out@[k])@ == strategy(ts, *get, k) && probe_suits(
                    ts[k + 1],
                    out@[k]@,
                ),
    {
        let left = slice_subrange(bound.tables.as_slice(), 0, i + 1);
        proof {
            assert(tabs(left@) =~= ts.take(i as int + 1));
            assert(ts[i as int + 1] == bound.tables@[i as int + 1]@);
        }
        out.push(plan_join(left, &bound.tables[i + 1], &get.joins[i].on));
    }
    Ok((bound, out))
}

// ---------------------------------------------------------------------
// steps
// ---------------------------------------------------------------------

proof fn lemma_matched_fails(
    ts: Seq<Tab>,
    n: int,
    left: Row,
    cands: Seq<Row>,
    on: Term,
    g: Math,
    k: int,
)
    requires
        0 <= k <= cands.len(),
        matched(ts, n, left, cands.take(k), on, g) is Err,
    ensures
        matched(ts, n, left, cands, on, g) == matched(ts, n, left, cands.take(k), on, g),
    decreases cands.len() - k,
{
    if k < cands.len() {
        assert(cands.take(k + 1).drop_last() =~= cands.take(k));
        lemma_matched_fails(ts, n, left, cands, on, g, k + 1);
    } else {
        assert(cands.take(k) =~= cands);
    }
}

/// The combined rows on which the condition holds.
fn match_row<M: Fn(BinaryOp, u64, u64) -> u64, T: Fn(u64) -> String>(
    bound: &Bound,
    step: usize,
    left: &Vec<Value>,
    cands: &Vec<Vec<Value>>,
    on: &Expr,
    floats: &Floats<M, T>,
) -> (r: core::result::Result<Vec<Vec<Value>>, ExecError>)
    requires
        bound.wf(),
        floats.ok(),
        step + 1 < bound.tables@.len(),
        left@.len() == width(tabs(bound.tables@), step + 1),
        wide(cands@, tabs(bound.tables@)[step + 1].columns.len()),
    ensures
        crate::query::is_rows(
            r,
            matched(
                tabs(bound.tables@),
                step + 2,
                vals(left@),
                rows_of(cands@),
                on@,
                floats.math(),
            ),
        ),
        r matches Ok(v) ==> wide(v@, width(tabs(bound.tables@), step + 2)),
{
    let ghost ts = tabs(bound.tables@);
    let ghost all = rows_of(cands@);
    let ghost l = vals(left@);
    let mut out: Vec<Vec<Value>> = Vec::new();
    let len: usize = cands.len();
    let count: usize = bound.tables.len();
    proof {
        assert(rows_of(out@) =~= Seq::empty());
        assert(all.take(0) =~= Seq::empty());
    }
    for i in 0..len
        invariant
            len == cands@.len(),
            ts == tabs(bound.tables@),
            all == rows_of(cands@),
            l == vals(left@),
            bound.wf(),
            floats.ok(),
            step + 1 < bound.tables@.len() == count,
            left@.len() == width(ts, step + 1),
            wide(cands@, ts[step + 1].columns.len()),
            matched(ts, step + 2, l, all.take(i as int), on@, floats.math()) == Ok::<
                Seq<Row>,
                Fail,
            >(rows_of(out@)),
            wide(out@, width(ts, step + 2)),
    {
        proof {
            let now = all.take(i as int + 1);
            assert(now.drop_last() =~= all.take(i as int));
            assert(now.last() == vals(cands@[i as int]@));
            assert(cands@[i as int]@.len() == ts[step + 1].columns.len());
        }
        let mut combined = copy_values(left.as_slice());
        proof {
            assert(vals(combined@).len() == vals(left@).len());
        }
        append_values(&mut combined, cands[i].as_slice());
        let scope = BoundScope { bound, upto: step + 2, values: &combined };
        match check(on, &scope, floats) {
            Ok(true) => {
                let ghost had = out@;
                out.push(combined);
                proof {
                    assert(rows_of(out@) =~= rows_of(had).push(l + all[i as int]));
                }
            },
            Ok(false) => {},
            Err(e) => {
                proof {
                    lemma_matched_fails(ts, step + 2, l, all, on@, floats.math(), i as int + 1);
                }
                return Err(e);
            },
        }
    }
    proof {
        assert(all.take(len as int) =~= all);
    }
    Ok(out)
}

fn fetch_bare<V: Source, M: Fn(BinaryOp, u64, u64) -> u64, T: Fn(u64) -> String>(
    view: &V,
    table: &Table,
    access: Access,
    floats: &Floats<M, T>,
) -> (r: core::result::Result<Vec<Vec<Value>>, ExecError>)
    requires
        view.ready(),
        floats.ok(),
    ensures
        reads(*view, r, found_rows(view.rows(), table@, access@)),
        r matches Ok(v) ==> wide(v@, table@.columns.len()),
{
    let plan = AccessPlan { access, residual: None };
    match fetch_rows(view, table, &plan, floats) {
        Ok(found) => Ok(drop_keys(found)),
        Err(e) => Err(e),
    }
}

/// The right rows a probe finds for one left row.
fn probe<V: Source, M: Fn(BinaryOp, u64, u64) -> u64, T: Fn(u64) -> String>(
    view: &V,
    left: &Vec<Value>,
    bound: &Bound,
    step: usize,
    strategy: &JoinStrategy,
    floats: &Floats<M, T>,
) -> (r: core::result::Result<Vec<Vec<Value>>, ExecError>)
    requires
        view.ready(),
        bound.wf(),
        floats.ok(),
        step + 1 < bound.tables@.len(),
        left@.len() == width(tabs(bound.tables@), step + 1),
        probe_suits(tabs(bound.tables@)[step + 1], strategy@),
    ensures
        reads(
            *view,
            r,
            candidates(view.rows(), tabs(bound.tables@), step as int, strategy@, vals(left@)),
        ),
        r matches Ok(v) ==> wide(v@, tabs(bound.tables@)[step + 1].columns.len()),
{
    let count: usize = bound.tables.len();
    let right = &bound.tables[step + 1];
    let ghost ts = tabs(bound.tables@);
    proof {
        assert(ts[step + 1] == right@);
    }
    let scope = BoundScope { bound, upto: step + 1, values: left };
    match strategy {
        JoinStrategy::NestedLoop => fetch_bare(view, right, Access::SeqScan, floats),
        JoinStrategy::KeyProbe { left: name } => {
            let value = match scope.column(name) {
                Ok(v) => v,
                Err(e) => return Err(e),
            };
            if let Value::Null = value {
                // key columns are never null; nothing can match
                let none: Vec<Vec<Value>> = Vec::new();
                proof {
                    assert(rows_of(none@) =~= Seq::empty());
                }
                return Ok(none);
            }
            let keys = right.key_positions();
            proof {
                lemma_key_spots(right@.columns);
                assert(ints(keys@).len() == 1);
                assert(ints(keys@)[0] == key_spots(right@.columns)[0]);
                assert(right@.columns[keys@[0] as int] == right.columns@[keys@[0] as int]@);
            }
            match coerce(value, right.columns[keys[0]].ty, false) {
                Ok(v) => {
                    let key_values: Vec<Value> = vec![v];
                    proof {
                        assert(vals(key_values@) =~= seq![v@]);
                    }
                    fetch_bare(view, right, Access::KeyLookup { key_values }, floats)
                },
                Err(e) => Err(e),
            }
        },
        JoinStrategy::IndexProbe { left: name, column, index_id } => {
            let value = match scope.column(name) {
                Ok(v) => v,
                Err(e) => return Err(e),
            };
            proof {
                assert(right@.columns[*column as int] == right.columns@[*column as int]@);
            }
            // null probes a null index entry, matching the engine's
            // null = null rule
            match coerce(value, right.columns[*column].ty, true) {
                Ok(v) => fetch_bare(
                    view,
                    right,
                    Access::IndexScan { column: *column, index_id: *index_id, value: v },
                    floats,
                ),
                Err(e) => Err(e),
            }
        },
    }
}

proof fn lemma_joined_all_fails(
    m: Bytes,
    ts: Seq<Tab>,
    step: int,
    kind: JoinKind,
    on: Term,
    p: Probe,
    lefts: Seq<Row>,
    g: Math,
    k: int,
)
    requires
        0 <= k <= lefts.len(),
        joined_all(m, ts, step, kind, on, p, lefts.take(k), g) is Err,
    ensures
        joined_all(m, ts, step, kind, on, p, lefts, g) == joined_all(
            m,
            ts,
            step,
            kind,
            on,
            p,
            lefts.take(k),
            g,
        ),
    decreases lefts.len() - k,
{
    if k < lefts.len() {
        assert(lefts.take(k + 1).drop_last() =~= lefts.take(k));
        lemma_joined_all_fails(m, ts, step, kind, on, p, lefts, g, k + 1);
    } else {
        assert(lefts.take(k) =~= lefts);
    }
}

/// A left row without a match, padded with nulls.
fn pad(left: &Vec<Value>, n: usize) -> (r: Vec<Value>)
    ensures
        vals(r@) == vals(left@) + nulls(n as nat),
        r@.len() == left@.len() + n,
{
    let mut out = copy_values(left.as_slice());
    let ghost base = out@;
    proof {
        assert(vals(base).len() == vals(left@).len());
    }
    for i in 0..n
        invariant
            out@.len() == base.len() + i,
            vals(out@) == vals(base) + nulls(i as nat),
    {
        let ghost had = out@;
        out.push(Value::Null);
        proof {
            assert(vals(out@) =~= vals(had).push(Val::Null));
            assert(vals(out@) =~= vals(base) + nulls((i + 1) as nat));
        }
    }
    proof {
        assert(vals(out@) =~= vals(left@) + nulls(n as nat));
    }
    out
}

/// What one left row becomes.
fn join_one<V: Source, M: Fn(BinaryOp, u64, u64) -> u64, T: Fn(u64) -> String>(
    view: &V,
    left: &Vec<Value>,
    bound: &Bound,
    step: usize,
    join: &Join,
    strategy: &JoinStrategy,
    materialized: &Option<Vec<Vec<Value>>>,
    floats: &Floats<M, T>,
) -> (r: core::result::Result<Vec<Vec<Value>>, ExecError>)
    requires
        view.ready(),
        bound.wf(),
        floats.ok(),
        step + 1 < bound.tables@.len(),
        left@.len() == width(tabs(bound.tables@), step + 1),
        probe_suits(tabs(bound.tables@)[step + 1], strategy@),
        materialized matches Some(v) ==> {
            &&& strategy@ is NestedLoop
            &&& wide(v@, tabs(bound.tables@)[step + 1].columns.len())
            &&& view.whole() ==> found_rows(
                view.rows(),
                tabs(bound.tables@)[step + 1],
                Path::SeqScan,
            ) == Ok::<Seq<Row>, Fail>(rows_of(v@))
        },
    ensures
        reads(
            *view,
            r,
            joined_one(
                view.rows(),
                tabs(bound.tables@),
                step as int,
                join.kind,
                join.on@,
                strategy@,
                vals(left@),
                floats.math(),
            ),
        ),
        r matches Ok(v) ==> wide(v@, width(tabs(bound.tables@), step + 2)),
{
    let ghost ts = tabs(bound.tables@);
    let found = match materialized {
        Some(rows) => match_row(bound, step, left, rows, &join.on, floats),
        None => match probe(view, left, bound, step, strategy, floats) {
            Ok(rows) => match_row(bound, step, left, &rows, &join.on, floats),
            Err(e) => return Err(e),
        },
    };
    match found {
        Err(e) => Err(e),
        Ok(mut out) => {
            if out.len() == 0 && join.kind == JoinKind::Left {
                let count: usize = bound.tables.len();
                let right_width: usize = bound.tables[step + 1].columns.len();
                proof {
                    assert(ts[step + 1].columns.len() == right_width);
                }
                let ghost none = out@;
                out.push(pad(left, right_width));
                proof {
                    assert(rows_of(out@) =~= seq![vals(left@) + nulls(right_width as nat)]);
                }
            }
            Ok(out)
        },
    }
}

/// One join step. The strategy only decides which right rows become
/// candidates; the full on-condition runs on every candidate.
pub fn join_step<V: Source, M: Fn(BinaryOp, u64, u64) -> u64, T: Fn(u64) -> String>(
    view: &V,
    left_rows: &Vec<Vec<Value>>,
    bound: &Bound,
    step: usize,
    join: &Join,
    strategy: &JoinStrategy,
    floats: &Floats<M, T>,
) -> (r: core::result::Result<Vec<Vec<Value>>, ExecError>)
    requires
        view.ready(),
        bound.wf(),
        floats.ok(),
        step + 1 < bound.tables@.len(),
        wide(left_rows@, width(tabs(bound.tables@), step + 1)),
        probe_suits(tabs(bound.tables@)[step + 1], strategy@),
    ensures
        reads(
            *view,
            r,
            stepped(
                view.rows(),
                tabs(bound.tables@),
                step as int,
                join.kind,
                join.on@,
                strategy@,
                rows_of(left_rows@),
                floats.math(),
            ),
        ),
        r matches Ok(v) ==> wide(v@, width(tabs(bound.tables@), step + 2)),
{
    let ghost ts = tabs(bound.tables@);
    let ghost m = view.rows();
    let ghost all = rows_of(left_rows@);
    let ghost g = floats.math();
    let count: usize = bound.tables.len();
    let right = &bound.tables[step + 1];
    proof {
        assert(ts[step + 1] == right@);
    }
    // the nested loop materializes the right side once
    let materialized: Option<Vec<Vec<Value>>> = match strategy {
        JoinStrategy::NestedLoop => match fetch_bare(view, right, Access::SeqScan, floats) {
            Ok(rows) => Some(rows),
            Err(e) => return Err(e),
        },
        _ => None,
    };
    let mut out: Vec<Vec<Value>> = Vec::new();
    let len: usize = left_rows.len();
    proof {
        assert(rows_of(out@) =~= Seq::empty());
        assert(all.take(0) =~= Seq::empty());
    }
    for i in 0..len
        invariant
            len == left_rows@.len(),
            ts == tabs(bound.tables@),
            m == view.rows(),
            all == rows_of(left_rows@),
            g == floats.math(),
            view.ready(),
            bound.wf(),
            floats.ok(),
            step + 1 < bound.tables@.len(),
            wide(left_rows@, width(ts, step + 1)),
            probe_suits(ts[step + 1], strategy@),
            view.whole() && strategy@ is NestedLoop ==> found_rows(
                m,
                ts[step + 1],
                Path::SeqScan,
            ) is Ok,
            materialized matches Some(v) ==> {
                &&& strategy@ is NestedLoop
                &&& wide(v@, ts[step + 1].columns.len())
                &&& view.whole() ==> found_rows(m, ts[step + 1], Path::SeqScan) == Ok::<
                    Seq<Row>,
                    Fail,
                >(rows_of(v@))
            },
            view.whole() ==> joined_all(
                m,
                ts,
                step as int,
                join.kind,
                join.on@,
                strategy@,
                all.take(i as int),
                g,
            ) == Ok::<Seq<Row>, Fail>(rows_of(out@)),
            wide(out@, width(ts, step + 2)),
    {
        proof {
            let now = all.take(i as int + 1);
            assert(now.drop_last() =~= all.take(i as int));
            assert(now.last() == vals(left_rows@[i as int]@));
        }
        match join_one(view, &left_rows[i], bound, step, join, strategy, &materialized, floats) {
            Ok(mut more) => {
                let ghost had = out@;
                let ghost extra = more@;
                out.append(&mut more);
                proof {
                    assert(rows_of(out@) =~= rows_of(had) + rows_of(extra));
                }
            },
            Err(e) => {
                proof {
                    if view.whole() && joined_all(
                        m,
                        ts,
                        step as int,
                        join.kind,
                        join.on@,
                        strategy@,
                        all.take(i as int + 1),
                        g,
                    ) is Err {
                        lemma_joined_all_fails(
                            m,
                            ts,
                            step as int,
                            join.kind,
                            join.on@,
                            strategy@,
                            all,
                            g,
                            i as int + 1,
                        );
                    }
                }
                return Err(e);
            },
        }
    }
    proof {
        assert(all.take(len as int) =~= all);
    }
    Ok(out)
}

proof fn lemma_walked_fails(m: Bytes, ts: Seq<Tab>, get: Get, g: Math, k: int, n: int)
    requires
        0 <= k <= n,
        walked(m, ts, get, k, g) is Err,
    ensures
        walked(m, ts, get, n, g) == walked(m, ts, get, k, g),
    decreases n - k,
{
    if k < n {
        lemma_walked_fails(m, ts, get, g, k, n - 1);
    }
}

proof fn lemma_sifted_joint_fails(ts: Seq<Tab>, rows: Seq<Row>, e: Term, g: Math, n: int)
    requires
        0 <= n <= rows.len(),
        sifted_joint(ts, rows.take(n), e, g) is Err,
    ensures
        sifted_joint(ts, rows, e, g) == sifted_joint(ts, rows.take(n), e, g),
    decreases rows.len() - n,
{
    if n < rows.len() {
        assert(rows.take(n + 1).drop_last() =~= rows.take(n));
        lemma_sifted_joint_fails(ts, rows, e, g, n + 1);
    } else {
        assert(rows.take(n) =~= rows);
    }
}

fn sift_joint<M: Fn(BinaryOp, u64, u64) -> u64, T: Fn(u64) -> String>(
    bound: &Bound,
    rows: Vec<Vec<Value>>,
    cond: &Expr,
    floats: &Floats<M, T>,
) -> (r: core::result::Result<Vec<Vec<Value>>, ExecError>)
    requires
        bound.wf(),
        floats.ok(),
        wide(rows@, width(tabs(bound.tables@), bound.tables@.len() as int)),
    ensures
        crate::query::is_rows(
            r,
            sifted_joint(tabs(bound.tables@), rows_of(rows@), cond@, floats.math()),
        ),
        r matches Ok(v) ==> wide(v@, width(tabs(bound.tables@), bound.tables@.len() as int)),
{
    let ghost ts = tabs(bound.tables@);
    let ghost all = rows_of(rows@);
    let given = rows;
    let mut out: Vec<Vec<Value>> = Vec::new();
    let len: usize = given.len();
    let upto: usize = bound.tables.len();
    proof {
        assert(rows_of(out@) =~= Seq::empty());
        assert(all.take(0) =~= Seq::empty());
    }
    for i in 0..len
        invariant
            len == given@.len(),
            given@ == rows@,
            ts == tabs(bound.tables@),
            all == rows_of(given@),
            upto == ts.len(),
            bound.wf(),
            floats.ok(),
            wide(given@, width(ts, ts.len() as int)),
            sifted_joint(ts, all.take(i as int), cond@, floats.math()) == Ok::<Seq<Row>, Fail>(
                rows_of(out@),
            ),
            wide(out@, width(ts, ts.len() as int)),
    {
        proof {
            let now = all.take(i as int + 1);
            assert(now.drop_last() =~= all.take(i as int));
            assert(now.last() == vals(given@[i as int]@));
            assert(given@[i as int]@.len() == width(ts, ts.len() as int));
        }
        let scope = BoundScope { bound, upto, values: &given[i] };
        match check(cond, &scope, floats) {
            Ok(true) => {
                let ghost had = out@;
                let row = copy_values(given[i].as_slice());
                proof {
                    assert(vals(row@).len() == vals(given@[i as int]@).len());
                }
                out.push(row);
                proof {
                    assert(rows_of(out@) =~= rows_of(had).push(all[i as int]));
                }
            },
            Ok(false) => {},
            Err(e) => {
                proof {
                    lemma_sifted_joint_fails(ts, all, cond@, floats.math(), i as int + 1);
                }
                return Err(e);
            },
        }
    }
    proof {
        assert(all.take(len as int) =~= all);
    }
    Ok(out)
}

/// The rows after all joins.
#[verifier::rlimit(60)]
fn walk<V: Source, M: Fn(BinaryOp, u64, u64) -> u64, T: Fn(u64) -> String>(
    view: &V,
    bound: &Bound,
    strategies: &Vec<JoinStrategy>,
    get: &Get,
    floats: &Floats<M, T>,
) -> (r: core::result::Result<Vec<Vec<Value>>, ExecError>)
    requires
        view.ready(),
        floats.ok(),
        bound.wf(),
        bound.tables@.len() == get.joins@.len() + 1,
        planned_for(tabs(bound.tables@), *get, strategies@),
    ensures
        reads(
            *view,
            r,
            walked(
                view.rows(),
                tabs(bound.tables@),
                *get,
                get.joins@.len() as int,
                floats.math(),
            ),
        ),
        r matches Ok(v) ==> wide(v@, width(tabs(bound.tables@), bound.tables@.len() as int)),
{
    let ghost ts = tabs(bound.tables@);
    let ghost m = view.rows();
    let ghost g = floats.math();
    let ghost n = get.joins@.len() as int;
    proof {
        assert(ts[0] == bound.tables@[0]@);
        assert(width(ts, 1) == ts[0].columns.len()) by {
            reveal_with_fuel(width, 2);
        }
    }
    // base table: full scan; the filter runs after all joins
    let mut rows = match fetch_bare(view, &bound.tables[0], Access::SeqScan, floats) {
        Ok(v) => v,
        Err(e) => {
            proof {
                if view.whole() && walked(m, ts, *get, 0, g) is Err {
                    lemma_walked_fails(m, ts, *get, g, 0, n);
                }
            }
            return Err(e);
        },
    };
    let len: usize = get.joins.len();
    for i in 0..len
        invariant
            len == get.joins@.len() == n,
            ts == tabs(bound.tables@),
            m == view.rows(),
            g == floats.math(),
            view.ready(),
            floats.ok(),
            bound.wf(),
            bound.tables@.len() == len + 1,
            planned_for(ts, *get, strategies@),
            reads(*view, Ok(rows), walked(m, ts, *get, i as int, g)),
            wide(rows@, width(ts, i + 1)),
    {
        proof {
            assert(strategies@[i as int]@ == strategy(ts, *get, i as int));
        }
        let next = join_step(view, &rows, bound, i, &get.joins[i], &strategies[i], floats);
        proof {
            assert(reads(*view, next, walked(m, ts, *get, i as int + 1, g)));
        }
        match next {
            Ok(v) => {
                rows = v;
            },
            Err(e) => {
                proof {
                    if view.whole() && walked(m, ts, *get, i as int + 1, g) is Err {
                        lemma_walked_fails(m, ts, *get, g, i as int + 1, n);
                    }
                }
                return Err(e);
            },
        }
    }
    Ok(rows)
}

/// Run a join against a point in time.
fn run_join_get<V: Source, M: Fn(BinaryOp, u64, u64) -> u64, T: Fn(u64) -> String>(
    view: &V,
    get: &Get,
    floats: &Floats<M, T>,
) -> (r: core::result::Result<Vec<Vec<Value>>, ExecError>)
    requires
        view.ready(),
        floats.ok(),
    ensures
        reads(*view, r, got_join(view.rows(), view.schema(), *get, floats.math())),
{
    let (bound, strategies) = match bind_join_get(view, get) {
        Ok(x) => x,
        Err(e) => return Err(e),
    };
    let rows = match walk(view, &bound, &strategies, get, floats) {
        Ok(v) => v,
        Err(e) => return Err(e),
    };
    let kept = match &get.filter {
        None => rows,
        Some(f) => match sift_joint(&bound, rows, f, floats) {
            Ok(v) => v,
            Err(e) => return Err(e),
        },
    };
    serve(&bound, kept, get)
}

/// Run a read against a point in time.
pub fn run_get<V: Source, M: Fn(BinaryOp, u64, u64) -> u64, T: Fn(u64) -> String>(
    view: &V,
    get: &Get,
    floats: &Floats<M, T>,
) -> (r: core::result::Result<Vec<Vec<Value>>, ExecError>)
    requires
        view.ready(),
        floats.ok(),
    ensures
        reads(*view, r, got(view.rows(), view.schema(), *get, floats.math())),
{
    proof {
        reveal(got);
    }
    if get.joins.len() > 0 {
        run_join_get(view, get, floats)
    } else {
        get_one(view, get, floats)
    }
}

} // verus!
