//! Which rows a read finds, told by the rows that are stored.

use vstd::prelude::*;

use crate::ast::{opt_term, Get, JoinKind, Term};
use crate::catalog::{key_spots, Tab};
use crate::consistency::{
    entry_of, is_row, kept, law_index_scan_reaches_its_rows, lemma_planned_path,
    lemma_reached_hits, lemma_sifted_hits, path_ok, real_hits,
};
use crate::effects::{selected, State};
use crate::encoding::Val;
use crate::exec_error::Fail;
use crate::join::{join_planned, joint_names, width};
use crate::join_laws::{
    law_probe_offers_every_match, law_probe_offers_only_rows, lemma_matched, lemma_scan_has,
    step_ready,
};
use crate::joining::{candidates, got, joined_all, joined_one, matched, nulls};
use crate::plan::{law_plan_selects_what_the_filter_selects, planned, reaches, row_typed, Path};
use crate::query::{bare, fetched, reached, sifted, Hit};
use crate::read_laws::{law_filter_keeps_what_holds, true_of_hit};
use crate::rows::{law_keys_are_distinct, pk_of, probe_at, row_at, row_names};
use crate::sorting::Row;
use crate::source::table_in;
use crate::store::Bytes;
use crate::value_ops::{holds_in, Math};

verus! {

/// Whether an index scan meets only entries of the value it looks for. A
/// text that goes on with a zero character where the wanted one ends has
/// its entry under the same prefix.
pub open spec fn clean(m: Bytes, t: Tab, p: Path) -> bool {
    p matches Path::IndexScan(pos, id, v) ==> forall|r: Row| #[trigger]
        is_row(m, t, r) && probe_at(id, v).is_prefix_of(entry_of(t, pos, r)) ==> r[pos] == v
}

proof fn lemma_reached_exact(m: Bytes, t: Tab, p: Path, row: Row)
    requires
        m.dom().finite(),
        kept(m, t),
        path_ok(t, p),
        clean(m, t, p),
        key_spots(t.columns).len() > 0,
        reached(m, t, p) is Ok,
    ensures
        bare(reached(m, t, p)->Ok_0).contains(row) <==> is_row(m, t, row) && reaches(t, p, row),
{
    let h = reached(m, t, p)->Ok_0;
    lemma_reached_hits(m, t, p);
    match p {
        Path::SeqScan => {
            if is_row(m, t, row) {
                lemma_scan_has(m, t, row);
            }
        },
        Path::KeyLookup(vs) => {
            if is_row(m, t, row) && pk_of(t.columns, row) == vs {
                assert(h[0].1 == row);
                assert(bare(h)[0] == row);
            }
            if bare(h).contains(row) {
                let i = choose|i: int| 0 <= i < bare(h).len() && bare(h)[i] == row;
                assert(h[i].0 == row_at(t.id, vs));
                law_keys_are_distinct(t.id, Val::Null, pk_of(t.columns, row), Val::Null, vs);
            }
        },
        Path::IndexScan(pos, id, v) => {
            law_index_scan_reaches_its_rows(m, t, pos, v, row);
            if bare(h).contains(row) {
                let i = choose|i: int| 0 <= i < bare(h).len() && bare(h)[i] == row;
                assert(h[i].1 == row);
            }
            if exists|i: int| 0 <= i < h.len() && (#[trigger] h[i]).1 == row {
                let i = choose|i: int| 0 <= i < h.len() && (#[trigger] h[i]).1 == row;
                assert(bare(h)[i] == row);
            }
        },
    }
    if bare(h).contains(row) {
        let i = choose|i: int| 0 <= i < bare(h).len() && bare(h)[i] == row;
        assert(is_row(m, t, h[i].1));
    }
}

proof fn lemma_bare_filter(t: Tab, h: Seq<Hit>, e: Term, g: Math, row: Row)
    requires
        sifted(t, h, e, g) is Ok,
    ensures
        bare(sifted(t, h, e, g)->Ok_0).contains(row) <==> bare(h).contains(row) && holds_in(
            e,
            row_names(t, row),
            g,
        ) == Ok::<bool, Fail>(true),
{
    broadcast use vstd::seq_lib::group_filter_ensures;

    let p = true_of_hit(t, e, g);
    let s = sifted(t, h, e, g)->Ok_0;
    law_filter_keeps_what_holds(t, h, e, g);
    assert(s == h.filter(p));
    if bare(s).contains(row) {
        let i = choose|i: int| 0 <= i < bare(s).len() && bare(s)[i] == row;
        assert(p(s[i]));
        assert(h.filter(p).contains(s[i]));
        lemma_filter_from(h, p, s[i]);
        let k = choose|k: int| 0 <= k < h.len() && h[k] == s[i];
        assert(bare(h)[k] == row);
    }
    if bare(h).contains(row) && holds_in(e, row_names(t, row), g) == Ok::<bool, Fail>(true) {
        let i = choose|i: int| 0 <= i < bare(h).len() && bare(h)[i] == row;
        assert(p(h[i]));
        assert(s.contains(h[i]));
        let k = choose|k: int| 0 <= k < s.len() && s[k] == h[i];
        assert(bare(s)[k] == row);
    }
}

proof fn lemma_filter_from(h: Seq<Hit>, p: spec_fn(Hit) -> bool, x: Hit)
    requires
        h.filter(p).contains(x),
    ensures
        h.contains(x),
    decreases h.len(),
{
    reveal(Seq::filter);
    if h.len() > 0 {
        let less = h.drop_last();
        let i = choose|i: int| 0 <= i < h.filter(p).len() && h.filter(p)[i] == x;
        if i < less.filter(p).len() {
            assert(less.filter(p)[i] == x);
            lemma_filter_from(less, p, x);
            let k = choose|k: int| 0 <= k < less.len() && less[k] == x;
            assert(h[k] == x);
        } else {
            assert(h[h.len() - 1] == x);
        }
    }
}

/// Whether a filter, where there is one, is true of a row.
pub open spec fn wanted(t: Tab, f: Option<Term>, row: Row, g: Math) -> bool {
    f matches Some(e) ==> holds_in(e, row_names(t, row), g) == Ok::<bool, Fail>(true)
}

/// Whether a table can be read: in step with its indexes, with rows of its
/// column types and a key.
pub open spec fn in_shape(m: Bytes, t: Tab) -> bool {
    &&& m.dom().finite()
    &&& kept(m, t)
    &&& key_spots(t.columns).len() > 0
    &&& forall|row: Row| #[trigger] is_row(m, t, row) ==> row_typed(t.columns, row)
}

proof fn lemma_fetched(m: Bytes, t: Tab, f: Option<Term>, g: Math)
    requires
        in_shape(m, t),
        planned(t, f) is Ok,
        clean(m, t, planned(t, f)->Ok_0.path),
        fetched(m, t, planned(t, f)->Ok_0, g) is Ok,
    ensures
        real_hits(m, t, fetched(m, t, planned(t, f)->Ok_0, g)->Ok_0),
        forall|row: Row| #[trigger]
            bare(fetched(m, t, planned(t, f)->Ok_0, g)->Ok_0).contains(row) <==> is_row(m, t, row)
                && wanted(t, f, row, g),
{
    let w = planned(t, f)->Ok_0;
    let h = fetched(m, t, w, g)->Ok_0;
    let r = reached(m, t, w.path)->Ok_0;
    lemma_planned_path(t, f);
    lemma_reached_hits(m, t, w.path);
    if let Some(e) = w.residual {
        lemma_sifted_hits(m, t, r, e, g);
    }
    assert forall|row: Row| #[trigger] bare(h).contains(row) <==> is_row(m, t, row) && wanted(
        t,
        f,
        row,
        g,
    ) by {
        lemma_reached_exact(m, t, w.path, row);
        if let Some(e) = w.residual {
            lemma_bare_filter(t, r, e, g, row);
        }
        if let Some(e) = f {
            if is_row(m, t, row) {
                law_plan_selects_what_the_filter_selects(t, e, row, g);
            }
        }
    }
}

proof fn lemma_bare_once(m: Bytes, t: Tab, h: Seq<Hit>)
    requires
        real_hits(m, t, h),
    ensures
        bare(h).no_duplicates(),
{
    let c = bare(h);
    assert forall|i: int, j: int| 0 <= i < c.len() && 0 <= j < c.len() && i != j implies c[i]
        != c[j] by {
        if i < j {
            assert(h[i].0 != h[j].0);
        } else {
            assert(h[j].0 != h[i].0);
        }
    }
}

/// A read of one table gives every stored row the filter is true of, each
/// once, and nothing else, whichever way the rows were reached.
pub proof fn law_get_finds_every_row(m: Bytes, schema: Bytes, get: Get, t: Tab, g: Math)
    requires
        get.joins@.len() == 0,
        get.order is None,
        get.limit is None,
        get.projection is None,
        table_in(schema, get.table@) == Ok::<Tab, Fail>(t),
        in_shape(m, t),
        got(m, schema, get, g) is Ok,
        clean(m, t, planned(t, opt_term(get.filter))->Ok_0.path),
    ensures
        got(m, schema, get, g)->Ok_0.no_duplicates(),
        forall|row: Row| #[trigger]
            got(m, schema, get, g)->Ok_0.contains(row) <==> is_row(m, t, row) && (
            get.filter matches Some(f) ==> holds_in(f@, row_names(t, row), g) == Ok::<bool, Fail>(
                true,
            )),
{
    reveal(got);
    lemma_fetched(m, t, opt_term(get.filter), g);
    let h = fetched(m, t, planned(t, opt_term(get.filter))->Ok_0, g)->Ok_0;
    lemma_bare_once(m, t, h);
}

/// What `set` and `del` change are the stored rows the filter is true of,
/// each once.
pub proof fn law_filter_selects_every_row(
    st: State,
    name: Seq<char>,
    f: Option<Term>,
    t: Tab,
    g: Math,
)
    requires
        table_in(st.schema, name) == Ok::<Tab, Fail>(t),
        in_shape(st.data, t),
        selected(st, name, f, g) is Ok,
        clean(st.data, t, planned(t, f)->Ok_0.path),
    ensures
        selected(st, name, f, g)->Ok_0.0 == t,
        real_hits(st.data, t, selected(st, name, f, g)->Ok_0.1),
        bare(selected(st, name, f, g)->Ok_0.1).no_duplicates(),
        forall|row: Row| #[trigger]
            bare(selected(st, name, f, g)->Ok_0.1).contains(row) <==> is_row(st.data, t, row)
                && wanted(t, f, row, g),
{
    lemma_fetched(st.data, t, f, g);
    lemma_bare_once(st.data, t, selected(st, name, f, g)->Ok_0.1);
}

// ---------------------------------------------------------------------
// joins
// ---------------------------------------------------------------------

/// Whether the condition of a join is true of a left row beside a right one.
pub open spec fn pairs_up(ts: Seq<Tab>, step: int, on: Term, left: Row, right: Row, g: Math) -> bool {
    holds_in(on, joint_names(ts, step + 2, left + right), g) == Ok::<bool, Fail>(true)
}

/// What one left row becomes in a join: one row for every stored right row
/// the condition pairs it with, the left values first; and where there is no
/// such row, none in an inner join, itself and nulls in a left join.
pub proof fn law_join_pairs_rows(
    m: Bytes,
    ts: Seq<Tab>,
    step: int,
    kind: JoinKind,
    on: Term,
    left: Row,
    g: Math,
    x: Row,
)
    requires
        step_ready(m, ts, step),
        left.len() == width(ts, step + 1),
        joined_one(
            m,
            ts,
            step,
            kind,
            on,
            join_planned(ts.take(step + 1), ts[step + 1], on),
            left,
            g,
        ) is Ok,
    ensures
        ({
            let out = joined_one(
                m,
                ts,
                step,
                kind,
                on,
                join_planned(ts.take(step + 1), ts[step + 1], on),
                left,
                g,
            )->Ok_0;
            &&& out.no_duplicates()
            &&& out.contains(x) <==> (exists|right: Row| #[trigger]
                is_row(m, ts[step + 1], right) && x == left + right && pairs_up(
                    ts,
                    step,
                    on,
                    left,
                    right,
                    g,
                )) || (kind is Left && x == left + Seq::new(
                ts[step + 1].columns.len(),
                |i: int| Val::Null,
            ) && forall|right: Row| #[trigger]
                is_row(m, ts[step + 1], right) ==> !pairs_up(ts, step, on, left, right, g))
        }),
{
    let p = join_planned(ts.take(step + 1), ts[step + 1], on);
    let t = ts[step + 1];
    let cands = candidates(m, ts, step, p, left)->Ok_0;
    let out = joined_one(m, ts, step, kind, on, p, left, g)->Ok_0;
    let hits = matched(ts, step + 2, left, cands, on, g)->Ok_0;
    law_probe_offers_only_rows(m, ts, step, on, left);
    lemma_matched(ts, step + 2, left, cands, on, g);
    assert forall|right: Row|
        #![trigger is_row(m, t, right)]
        is_row(m, t, right) && pairs_up(ts, step, on, left, right, g) implies hits.contains(
        left + right,
    ) by {
        law_probe_offers_every_match(m, ts, step, on, left, right, g);
        assert(cands.contains(right));
    }
    assert forall|y: Row| #[trigger] hits.contains(y) implies exists|right: Row| #[trigger]
        is_row(m, t, right) && y == left + right && pairs_up(ts, step, on, left, right, g) by {
        let right = choose|row: Row| #[trigger]
            cands.contains(row) && y == left + row && holds_in(
                on,
                joint_names(ts, step + 2, left + row),
                g,
            ) == Ok::<bool, Fail>(true);
        let i = choose|i: int| 0 <= i < cands.len() && cands[i] == right;
        assert(is_row(m, t, cands[i]));
    }
    let pad = left + Seq::new(t.columns.len(), |i: int| Val::Null);
    assert(left + nulls(t.columns.len()) =~= pad);
    if kind is Left && hits.len() == 0 {
        assert(out =~= seq![pad]);
        assert(out[0] == pad);
        assert(out.contains(pad));
        assert forall|right: Row| #[trigger] is_row(m, t, right) implies !pairs_up(
            ts,
            step,
            on,
            left,
            right,
            g,
        ) by {
            if pairs_up(ts, step, on, left, right, g) {
                assert(hits.contains(left + right));
            }
        }
    } else {
        assert(out == hits);
        if kind is Left {
            assert(hits.contains(hits[0]));
        }
    }
}

/// A join takes its left rows one after the other: what it gives for more of
/// them is what it gives for the first ones, then what it gives for the
/// rest.
pub proof fn law_joins_add_up(
    m: Bytes,
    ts: Seq<Tab>,
    step: int,
    kind: JoinKind,
    on: Term,
    a: Seq<Row>,
    b: Seq<Row>,
    g: Math,
)
    requires
        joined_all(
            m,
            ts,
            step,
            kind,
            on,
            join_planned(ts.take(step + 1), ts[step + 1], on),
            a + b,
            g,
        ) is Ok,
    ensures
        ({
            let p = join_planned(ts.take(step + 1), ts[step + 1], on);
            let x = joined_all(m, ts, step, kind, on, p, a, g);
            let y = joined_all(m, ts, step, kind, on, p, b, g);
            &&& x is Ok
            &&& y is Ok
            &&& joined_all(m, ts, step, kind, on, p, a + b, g)->Ok_0 == x->Ok_0 + y->Ok_0
            &&& b.len() == 1 ==> joined_one(m, ts, step, kind, on, p, b[0], g) == Ok::<
                Seq<Row>,
                Fail,
            >(y->Ok_0)
        }),
    decreases b.len(),
{
    let p = join_planned(ts.take(step + 1), ts[step + 1], on);
    if b.len() == 0 {
        assert(a + b =~= a);
        assert(joined_all(m, ts, step, kind, on, p, a, g)->Ok_0 + Seq::<Row>::empty() =~= joined_all(
            m,
            ts,
            step,
            kind,
            on,
            p,
            a,
            g,
        )->Ok_0);
    } else {
        let c = b.drop_last();
        assert((a + b).drop_last() =~= a + c);
        assert((a + b).last() == b.last());
        law_joins_add_up(m, ts, step, kind, on, a, c, g);
        let x = joined_all(m, ts, step, kind, on, p, a, g)->Ok_0;
        let y = joined_all(m, ts, step, kind, on, p, c, g)->Ok_0;
        let z = joined_one(m, ts, step, kind, on, p, b.last(), g)->Ok_0;
        assert(x + y + z =~= x + (y + z));
        if b.len() == 1 {
            assert(c =~= Seq::empty());
            assert(y + z =~= z);
        }
    }
}

} // verus!
