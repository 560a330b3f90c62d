//! Which rows a join of several tables gives, step by step, and in what
//! order a table is read.

use vstd::prelude::*;

use crate::ast::{Get, JoinKind};
use crate::catalog::Tab;
use crate::consistency::{
    is_row, kept, lemma_listed, lemma_listing_lists, lemma_read_all_hits, lemma_reached_hits,
};
use crate::encoding::Val;
use crate::exec_error::Fail;
use crate::find_laws::{law_join_pairs_rows, pairs_up};
use crate::join::{join_planned, width};
use crate::join_laws::{lemma_scan_has, step_ready};
use crate::joining::{bound_to, got, joined_all, joined_one, walked};
use crate::order::lex_lt;
use crate::plan::Path;
use crate::query::{bare, reached};
use crate::rows::{pk_of, range_at, row_at};
use crate::scan::item_keys;
use crate::sorting::Row;
use crate::source::{listing, table_in};
use crate::store::Bytes;
use crate::value_ops::Math;

verus! {

/// Whether a row is what a left row becomes in a join: itself beside a
/// stored right row the condition pairs it with, or, in a left join where
/// there is none, itself beside nulls.
pub open spec fn comes_of(
    m: Bytes,
    ts: Seq<Tab>,
    step: int,
    kind: JoinKind,
    on: crate::ast::Term,
    left: Row,
    x: Row,
    g: Math,
) -> bool {
    ||| exists|right: Row| #[trigger]
        is_row(m, ts[step + 1], right) && x == left + right && pairs_up(ts, step, on, left, right, g)
    ||| kind is Left && x == left + Seq::new(ts[step + 1].columns.len(), |i: int| Val::Null)
        && forall|right: Row| #[trigger]
        is_row(m, ts[step + 1], right) ==> !pairs_up(ts, step, on, left, right, g)
}

proof fn lemma_joined(
    m: Bytes,
    ts: Seq<Tab>,
    step: int,
    kind: JoinKind,
    on: crate::ast::Term,
    lefts: Seq<Row>,
    g: Math,
    x: Row,
)
    requires
        step_ready(m, ts, step),
        forall|i: int| 0 <= i < lefts.len() ==> (#[trigger] lefts[i]).len() == width(ts, step + 1),
        joined_all(
            m,
            ts,
            step,
            kind,
            on,
            join_planned(ts.take(step + 1), ts[step + 1], on),
            lefts,
            g,
        ) is Ok,
    ensures
        joined_all(
            m,
            ts,
            step,
            kind,
            on,
            join_planned(ts.take(step + 1), ts[step + 1], on),
            lefts,
            g,
        )->Ok_0.contains(x) <==> exists|left: Row| #[trigger]
            lefts.contains(left) && comes_of(m, ts, step, kind, on, left, x, g),
    decreases lefts.len(),
{
    let p = join_planned(ts.take(step + 1), ts[step + 1], on);
    let out = joined_all(m, ts, step, kind, on, p, lefts, g)->Ok_0;
    if lefts.len() == 0 {
        assert(!out.contains(x));
    } else {
        let less = lefts.drop_last();
        let last = lefts.last();
        assert forall|i: int| 0 <= i < less.len() implies (#[trigger] less[i]).len() == width(
            ts,
            step + 1,
        ) by {
            assert(less[i] == lefts[i]);
        }
        assert(lefts[lefts.len() - 1] == last);
        lemma_joined(m, ts, step, kind, on, less, g, x);
        law_join_pairs_rows(m, ts, step, kind, on, last, g, x);
        let a = joined_all(m, ts, step, kind, on, p, less, g)->Ok_0;
        let b = joined_one(m, ts, step, kind, on, p, last, g)->Ok_0;
        assert(out == a + b);
        if out.contains(x) {
            let i = choose|i: int| 0 <= i < out.len() && out[i] == x;
            if i < a.len() {
                assert(a[i] == x);
                assert(a.contains(x));
                let left = choose|left: Row| #[trigger]
                    less.contains(left) && comes_of(m, ts, step, kind, on, left, x, g);
                let k = choose|k: int| 0 <= k < less.len() && less[k] == left;
                assert(lefts[k] == left);
                assert(lefts.contains(left));
            } else {
                assert(b[i - a.len()] == x);
                assert(b.contains(x));
                assert(lefts.contains(last));
                assert(comes_of(m, ts, step, kind, on, last, x, g));
            }
        }
        if exists|left: Row| #[trigger]
            lefts.contains(left) && comes_of(m, ts, step, kind, on, left, x, g) {
            let left = choose|left: Row| #[trigger]
                lefts.contains(left) && comes_of(m, ts, step, kind, on, left, x, g);
            let k = choose|k: int| 0 <= k < lefts.len() && lefts[k] == left;
            if k < less.len() {
                assert(less[k] == left);
                assert(less.contains(left));
                assert(a.contains(x));
                let i = choose|i: int| 0 <= i < a.len() && a[i] == x;
                assert(out[i] == x);
            } else {
                assert(left == last);
                assert(b.contains(x));
                let i = choose|i: int| 0 <= i < b.len() && b[i] == x;
                assert(out[a.len() + i] == x);
            }
        }
    }
}

/// Whether every table of a join is in step, with rows as its columns ask.
pub open spec fn all_ready(m: Bytes, ts: Seq<Tab>) -> bool {
    &&& m.dom().finite()
    &&& ts.len() > 0
    &&& kept(m, ts[0])
    &&& forall|step: int| 0 <= step && step + 1 < ts.len() ==> #[trigger] step_ready(m, ts, step)
}

proof fn lemma_walked_width(m: Bytes, ts: Seq<Tab>, get: Get, n: int, g: Math)
    requires
        all_ready(m, ts),
        0 <= n <= get.joins@.len(),
        ts.len() == get.joins@.len() + 1,
        walked(m, ts, get, n, g) is Ok,
    ensures
        forall|i: int|
            0 <= i < walked(m, ts, get, n, g)->Ok_0.len() ==> (#[trigger] walked(
                m,
                ts,
                get,
                n,
                g,
            )->Ok_0[i]).len() == width(ts, n + 1),
    decreases n,
{
    reveal_with_fuel(width, 2);
    let out = walked(m, ts, get, n, g)->Ok_0;
    if n == 0 {
        lemma_reached_hits(m, ts[0], Path::SeqScan);
        let h = reached(m, ts[0], Path::SeqScan)->Ok_0;
        assert forall|i: int| 0 <= i < out.len() implies (#[trigger] out[i]).len() == width(ts, 1) by {
            assert(is_row(m, ts[0], h[i].1));
        }
    } else {
        lemma_walked_width(m, ts, get, n - 1, g);
        let lefts = walked(m, ts, get, n - 1, g)->Ok_0;
        let kind = get.joins@[n - 1].kind;
        let on = get.joins@[n - 1].on@;
        assert(step_ready(m, ts, n - 1));
        assert forall|i: int| 0 <= i < out.len() implies (#[trigger] out[i]).len() == width(
            ts,
            n + 1,
        ) by {
            let x = out[i];
            assert(out.contains(x));
            lemma_joined(m, ts, n - 1, kind, on, lefts, g, x);
            let left = choose|left: Row| #[trigger]
                lefts.contains(left) && comes_of(m, ts, n - 1, kind, on, left, x, g);
            let k = choose|k: int| 0 <= k < lefts.len() && lefts[k] == left;
            assert(lefts[k].len() == width(ts, n));
        }
    }
}

/// The rows of a join are made table by table: the first table's stored
/// rows, then for each further table what its join makes of the rows so
/// far.
pub proof fn law_joins_go_table_by_table(
    m: Bytes,
    ts: Seq<Tab>,
    get: Get,
    n: int,
    g: Math,
    x: Row,
)
    requires
        all_ready(m, ts),
        0 <= n <= get.joins@.len(),
        ts.len() == get.joins@.len() + 1,
        walked(m, ts, get, n, g) is Ok,
    ensures
        n == 0 ==> (walked(m, ts, get, n, g)->Ok_0.contains(x) <==> is_row(m, ts[0], x)),
        n > 0 ==> walked(m, ts, get, n - 1, g) is Ok && (walked(m, ts, get, n, g)->Ok_0.contains(x)
            <==> exists|left: Row| #[trigger]
            walked(m, ts, get, n - 1, g)->Ok_0.contains(left) && comes_of(
                m,
                ts,
                n - 1,
                get.joins@[n - 1].kind,
                get.joins@[n - 1].on@,
                left,
                x,
                g,
            )),
{
    let out = walked(m, ts, get, n, g)->Ok_0;
    if n == 0 {
        lemma_reached_hits(m, ts[0], Path::SeqScan);
        let h = reached(m, ts[0], Path::SeqScan)->Ok_0;
        if is_row(m, ts[0], x) {
            lemma_scan_has(m, ts[0], x);
        }
        if out.contains(x) {
            let i = choose|i: int| 0 <= i < out.len() && out[i] == x;
            assert(is_row(m, ts[0], h[i].1));
        }
    } else {
        lemma_walked_width(m, ts, get, n - 1, g);
        assert(step_ready(m, ts, n - 1));
        lemma_joined(
            m,
            ts,
            n - 1,
            get.joins@[n - 1].kind,
            get.joins@[n - 1].on@,
            walked(m, ts, get, n - 1, g)->Ok_0,
            g,
            x,
        );
    }
}

/// A join without filter, order, limit and projection gives the rows that
/// were made of all its tables.
pub proof fn law_plain_joins_give_all_rows(m: Bytes, schema: Bytes, get: Get, g: Math)
    requires
        get.joins@.len() > 0,
        get.filter is None,
        get.order is None,
        get.limit is None,
        get.projection is None,
        got(m, schema, get, g) is Ok,
    ensures
        bound_to(schema, get) matches Ok(ts) && ts.len() == get.joins@.len() + 1 && ts[0]
            == table_in(schema, get.table@)->Ok_0 && got(m, schema, get, g) == walked(
            m,
            ts,
            get,
            get.joins@.len() as int,
            g,
        ) && forall|i: int|
            0 <= i < get.joins@.len() ==> ts[i + 1] == table_in(
                schema,
                (#[trigger] get.joins@[i]).table@,
            )->Ok_0,
{
    reveal(got);
    lemma_tables(schema, get, get.joins@.len() as int);
}

proof fn lemma_tables(schema: Bytes, get: Get, n: int)
    requires
        0 <= n <= get.joins@.len(),
    ensures
        crate::joining::loaded(schema, get, n) matches Ok(ts) ==> {
            &&& ts.len() == n + 1
            &&& ts[0] == table_in(schema, get.table@)->Ok_0
            &&& forall|i: int|
                0 <= i < n ==> ts[i + 1] == table_in(schema, (#[trigger] get.joins@[i]).table@)->Ok_0
        },
    decreases n,
{
    if n > 0 {
        lemma_tables(schema, get, n - 1);
    }
}

/// A table read without filter and order comes in the order of its keys.
pub proof fn law_whole_tables_come_in_key_order(
    m: Bytes,
    schema: Bytes,
    get: Get,
    t: Tab,
    g: Math,
    i: int,
    j: int,
)
    requires
        get.joins@.len() == 0,
        get.filter is None,
        get.order is None,
        get.limit is None,
        get.projection is None,
        table_in(schema, get.table@) == Ok::<Tab, Fail>(t),
        m.dom().finite(),
        kept(m, t),
        got(m, schema, get, g) is Ok,
        0 <= i < j < got(m, schema, get, g)->Ok_0.len(),
    ensures
        lex_lt(
            row_at(t.id, pk_of(t.columns, got(m, schema, get, g)->Ok_0[i])),
            row_at(t.id, pk_of(t.columns, got(m, schema, get, g)->Ok_0[j])),
        ),
{
    reveal(got);
    let raw = listing(m, range_at(t.id));
    lemma_listed(m, range_at(t.id));
    lemma_listing_lists(m, range_at(t.id));
    lemma_read_all_hits(m, t, raw);
    let h = reached(m, t, Path::SeqScan)->Ok_0;
    assert(got(m, schema, get, g)->Ok_0 == bare(h));
    assert(h[i].0 == raw[i].0 && h[j].0 == raw[j].0);
    assert(item_keys(raw)[i] == raw[i].0 && item_keys(raw)[j] == raw[j].0);
    assert(lex_lt(raw[i].0, raw[j].0));
}

} // verus!
