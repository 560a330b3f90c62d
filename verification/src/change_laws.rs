//! What `put`, `set` and `del` do, told by the rows that are stored before
//! and after.

use vstd::prelude::*;

use crate::ast::{Assign, Expr, Term};
use crate::catalog::{lemma_spot, spot, Tab};
use crate::consistency::{
    is_row, kept, lemma_row_cut, lemma_row_put, lemma_row_set, lemma_rows_after_add,
    lemma_rows_after_take, lemma_rows_cut_keeps, lemma_rows_put_keeps, lemma_rows_set_keeps,
    own_ids, real_hits,
};
use crate::effects::{
    assign_ok, assigned, built, del_done, filled, given, put_done, row_cut, row_put, row_set,
    rows_put, rows_set, selected, set_done, State,
};
use crate::encoding::Val;
use crate::exec_error::Fail;
use crate::find_laws::{clean, in_shape, law_filter_selects_every_row, wanted};
use crate::plan::planned;
use crate::query::{bare, Hit};
use crate::rows::{known, pk_of, row_at, row_names};
use crate::sorting::Row;
use crate::source::table_in;
use crate::store::Bytes;
use crate::value_ops::{fitted, no_names, worth, Math};

verus! {

// ---------------------------------------------------------------------
// put
// ---------------------------------------------------------------------

/// Whether a column is among the first `n` fields.
pub open spec fn mentioned(t: Tab, fields: Seq<(String, Expr)>, n: int, p: int) -> bool {
    exists|k: int| 0 <= k < n && spot(t.columns, (#[trigger] fields[k]).0@) == Some(p)
}

proof fn lemma_given(t: Tab, fields: Seq<(String, Expr)>, n: int, g: Math)
    requires
        0 <= n <= fields.len(),
        given(t, fields, n, g) is Ok,
    ensures
        ({
            let vs = given(t, fields, n, g)->Ok_0;
            &&& vs.len() == t.columns.len()
            &&& forall|k: int|
                0 <= k < n ==> {
                    let p = spot(t.columns, (#[trigger] fields[k]).0@);
                    &&& p is Some
                    &&& vs[p->0] is Some
                    &&& worth(fields[k].1@, no_names(), g) is Ok
                    &&& fitted(
                        worth(fields[k].1@, no_names(), g)->Ok_0,
                        t.columns[p->0].ty,
                        t.columns[p->0].nullable,
                    ) == Ok::<Val, Fail>(vs[p->0]->0)
                }
            &&& forall|i: int, j: int|
                0 <= i < j < n ==> spot(t.columns, (#[trigger] fields[i]).0@) != spot(
                    t.columns,
                    (#[trigger] fields[j]).0@,
                )
            &&& forall|p: int|
                0 <= p < t.columns.len() ==> (#[trigger] vs[p] is Some <==> mentioned(t, fields, n, p))
        }),
    decreases n,
{
    if n > 0 {
        lemma_given(t, fields, n - 1, g);
        let old_vs = given(t, fields, n - 1, g)->Ok_0;
        let vs = given(t, fields, n, g)->Ok_0;
        let q = spot(t.columns, fields[n - 1].0@)->0;
        lemma_spot(t.columns, fields[n - 1].0@);
        assert forall|k: int| 0 <= k < n - 1 implies spot(t.columns, (#[trigger] fields[k]).0@)
            != Some(q) by {
            assert(old_vs[spot(t.columns, fields[k].0@)->0] is Some);
        }
        assert forall|k: int| 0 <= k < n implies {
            let p = spot(t.columns, (#[trigger] fields[k]).0@);
            &&& p is Some
            &&& vs[p->0] is Some
            &&& worth(fields[k].1@, no_names(), g) is Ok
            &&& fitted(
                worth(fields[k].1@, no_names(), g)->Ok_0,
                t.columns[p->0].ty,
                t.columns[p->0].nullable,
            ) == Ok::<Val, Fail>(vs[p->0]->0)
        } by {
            lemma_spot(t.columns, fields[k].0@);
        }
        assert forall|p: int| 0 <= p < t.columns.len() implies (#[trigger] vs[p] is Some
            <==> mentioned(t, fields, n, p)) by {
            assert(old_vs[p] is Some <==> mentioned(t, fields, n - 1, p));
            if p == q {
                assert(spot(t.columns, fields[n - 1].0@) == Some(p));
            } else if mentioned(t, fields, n, p) {
                let k = choose|k: int|
                    0 <= k < n && spot(t.columns, (#[trigger] fields[k]).0@) == Some(p);
                assert(k < n - 1);
            } else if mentioned(t, fields, n - 1, p) {
                let k = choose|k: int|
                    0 <= k < n - 1 && spot(t.columns, (#[trigger] fields[k]).0@) == Some(p);
                assert(k < n);
            }
        }
    }
}

/// A row to be added has, in each column a field names, the value of that
/// field as the column takes it; in every other column the default, or null
/// where there is none and the column may be null. No column is named
/// twice.
pub proof fn law_rows_are_built_of_fields(
    t: Tab,
    fields: Seq<(String, Expr)>,
    row: Row,
    g: Math,
)
    requires
        built(t, fields, g) == Ok::<Row, Fail>(row),
    ensures
        row.len() == t.columns.len(),
        forall|k: int|
            0 <= k < fields.len() ==> {
                &&& spot(t.columns, (#[trigger] fields[k]).0@) matches Some(p) && {
                    &&& t.columns[p].name == fields[k].0@
                    &&& worth(fields[k].1@, no_names(), g) matches Ok(v) && fitted(
                        v,
                        t.columns[p].ty,
                        t.columns[p].nullable,
                    ) == Ok::<Val, Fail>(row[p])
                }
            },
        forall|i: int, j: int|
            0 <= i < j < fields.len() ==> (#[trigger] fields[i]).0@ != (#[trigger] fields[j]).0@,
        forall|p: int|
            0 <= p < t.columns.len() && (forall|k: int|
                0 <= k < fields.len() ==> (#[trigger] fields[k]).0@ != t.columns[p].name)
                ==> match t.columns[p].default {
                Some(d) => #[trigger] row[p] == d,
                None => row[p] is Null && t.columns[p].nullable,
            },
{
    let n = fields.len() as int;
    lemma_given(t, fields, n, g);
    let vs = given(t, fields, n, g)->Ok_0;
    assert forall|p: int| 0 <= p < t.columns.len() implies #[trigger] filled(t.columns[p], vs[p])
        == Ok::<Val, Fail>(row[p]) by {}
    assert forall|k: int| 0 <= k < fields.len() implies {
        &&& spot(t.columns, (#[trigger] fields[k]).0@) matches Some(p) && {
            &&& t.columns[p].name == fields[k].0@
            &&& worth(fields[k].1@, no_names(), g) matches Ok(v) && fitted(
                v,
                t.columns[p].ty,
                t.columns[p].nullable,
            ) == Ok::<Val, Fail>(row[p])
        }
    } by {
        lemma_spot(t.columns, fields[k].0@);
        let p = spot(t.columns, fields[k].0@)->0;
        assert(filled(t.columns[p], vs[p]) == Ok::<Val, Fail>(row[p]));
    }
    assert forall|p: int|
        0 <= p < t.columns.len() && (forall|k: int|
            0 <= k < fields.len() ==> (#[trigger] fields[k]).0@ != t.columns[p].name) implies match t.columns[p].default {
        Some(d) => #[trigger] row[p] == d,
        None => row[p] is Null && t.columns[p].nullable,
    } by {
        if mentioned(t, fields, n, p) {
            let k = choose|k: int|
                0 <= k < n && spot(t.columns, (#[trigger] fields[k]).0@) == Some(p);
            lemma_spot(t.columns, fields[k].0@);
        }
        assert(vs[p] is None);
        assert(filled(t.columns[p], vs[p]) == Ok::<Val, Fail>(row[p]));
    }
}

/// Whether a row is one of the first `n` a `put` describes.
pub open spec fn described(
    t: Tab,
    rows: Seq<Vec<(String, Expr)>>,
    n: int,
    row: Row,
    g: Math,
) -> bool {
    exists|i: int| 0 <= i < n && built(t, (#[trigger] rows[i])@, g) == Ok::<Row, Fail>(row)
}

proof fn lemma_rows_put(
    m: Bytes,
    t: Tab,
    rows: Seq<Vec<(String, Expr)>>,
    n: int,
    lim: int,
    g: Math,
)
    requires
        own_ids(t),
        kept(m, t),
        0 <= n <= rows.len(),
        rows_put(m, t, rows, n, lim, g) is Ok,
    ensures
        forall|i: int| 0 <= i < n ==> built(t, (#[trigger] rows[i])@, g) is Ok,
        forall|r: Row| #[trigger]
            is_row(rows_put(m, t, rows, n, lim, g)->Ok_0, t, r) <==> is_row(m, t, r) || described(
                t,
                rows,
                n,
                r,
                g,
            ),
        forall|r: Row| #[trigger]
            is_row(m, t, r) ==> forall|i: int|
                0 <= i < n ==> pk_of(t.columns, r) != pk_of(
                    t.columns,
                    built(t, (#[trigger] rows[i])@, g)->Ok_0,
                ),
        forall|i: int, j: int|
            0 <= i < j < n ==> pk_of(t.columns, built(t, (#[trigger] rows[i])@, g)->Ok_0) != pk_of(
                t.columns,
                built(t, (#[trigger] rows[j])@, g)->Ok_0,
            ),
    decreases n,
{
    if n > 0 {
        lemma_rows_put(m, t, rows, n - 1, lim, g);
        lemma_rows_put_keeps(m, t, rows, n - 1, lim, g);
        let a = rows_put(m, t, rows, n - 1, lim, g)->Ok_0;
        let row = built(t, rows[n - 1]@, g)->Ok_0;
        let b = row_put(a, t, row, lim)->Ok_0;
        lemma_row_put(a, t, row, lim);
        assert forall|r: Row| #[trigger] is_row(b, t, r) <==> is_row(m, t, r) || described(
            t,
            rows,
            n,
            r,
            g,
        ) by {
            lemma_rows_after_add(a, b, t, row, r);
            assert(is_row(a, t, r) <==> is_row(m, t, r) || described(t, rows, n - 1, r, g));
            if described(t, rows, n, r, g) && !described(t, rows, n - 1, r, g) {
                let i = choose|i: int|
                    0 <= i < n && built(t, (#[trigger] rows[i])@, g) == Ok::<Row, Fail>(r);
                assert(i == n - 1);
            }
            if r == row {
                assert(built(t, rows[n - 1]@, g) == Ok::<Row, Fail>(r));
            }
        }
        assert forall|r: Row| #[trigger] is_row(m, t, r) implies pk_of(t.columns, r) != pk_of(
            t.columns,
            row,
        ) by {
            assert(is_row(a, t, r));
        }
        assert forall|i: int| 0 <= i < n - 1 implies pk_of(
            t.columns,
            built(t, (#[trigger] rows[i])@, g)->Ok_0,
        ) != pk_of(t.columns, row) by {
            let r = built(t, rows[i]@, g)->Ok_0;
            assert(described(t, rows, n - 1, r, g));
            assert(is_row(a, t, r));
        }
    }
}

/// After a `put` the table holds the rows it held and the rows described,
/// and no others. None of them has the key of a row that was there, or of
/// another one of them, so nothing is overwritten. The catalog stays.
pub proof fn law_put_adds_its_rows(
    st: State,
    name: Seq<char>,
    rows: Seq<Vec<(String, Expr)>>,
    t: Tab,
    lim: int,
    g: Math,
)
    requires
        table_in(st.schema, name) == Ok::<Tab, Fail>(t),
        own_ids(t),
        kept(st.data, t),
        put_done(st, name, rows, lim, g) is Ok,
    ensures
        ({
            let b = put_done(st, name, rows, lim, g)->Ok_0;
            &&& b.schema == st.schema
            &&& forall|i: int| 0 <= i < rows.len() ==> built(t, (#[trigger] rows[i])@, g) is Ok
            &&& forall|r: Row| #[trigger]
                is_row(b.data, t, r) <==> is_row(st.data, t, r) || exists|i: int|
                    0 <= i < rows.len() && built(t, (#[trigger] rows[i])@, g) == Ok::<Row, Fail>(r)
            &&& forall|r: Row, i: int| #[trigger]
                is_row(st.data, t, r) && 0 <= i < rows.len() ==> pk_of(t.columns, r) != pk_of(
                    t.columns,
                    built(t, (#[trigger] rows[i])@, g)->Ok_0,
                )
            &&& forall|i: int, j: int|
                0 <= i < j < rows.len() ==> pk_of(
                    t.columns,
                    built(t, (#[trigger] rows[i])@, g)->Ok_0,
                ) != pk_of(t.columns, built(t, (#[trigger] rows[j])@, g)->Ok_0)
        }),
{
    let b = put_done(st, name, rows, lim, g)->Ok_0;
    lemma_rows_put(st.data, t, rows, rows.len() as int, lim, g);
    assert forall|r: Row| #[trigger] is_row(b.data, t, r) <==> is_row(st.data, t, r) || exists|
        i: int,
    |
        0 <= i < rows.len() && built(t, (#[trigger] rows[i])@, g) == Ok::<Row, Fail>(r) by {
        assert(is_row(b.data, t, r) <==> is_row(st.data, t, r) || described(
            t,
            rows,
            rows.len() as int,
            r,
            g,
        ));
    }
}

/// A row whose key is taken is refused.
pub proof fn law_put_refuses_a_taken_key(m: Bytes, t: Tab, row: Row, old_row: Row, lim: int)
    requires
        is_row(m, t, old_row),
        pk_of(t.columns, old_row) == pk_of(t.columns, row),
    ensures
        row_put(m, t, row, lim) == Err::<Bytes, Fail>(Fail::Exec),
{
}

// ---------------------------------------------------------------------
// del
// ---------------------------------------------------------------------

/// The stored rows a filter is true of.
pub open spec fn chosen(m: Bytes, t: Tab, f: Option<Term>, g: Math) -> Set<Row> {
    Set::new(|r: Row| is_row(m, t, r) && wanted(t, f, r, g))
}

proof fn lemma_chosen(m: Bytes, t: Tab, f: Option<Term>, h: Seq<Hit>, g: Math)
    requires
        bare(h).no_duplicates(),
        forall|row: Row| #[trigger]
            bare(h).contains(row) <==> is_row(m, t, row) && wanted(t, f, row, g),
    ensures
        chosen(m, t, f, g).finite(),
        chosen(m, t, f, g).len() == h.len(),
        forall|r: Row|
            #![trigger chosen(m, t, f, g).contains(r)]
            chosen(m, t, f, g).contains(r) <==> exists|i: int| 0 <= i < h.len() && (#[trigger] h[i]).1 == r,
{
    let c = bare(h);
    c.unique_seq_to_set();
    assert(c.to_set() =~= chosen(m, t, f, g)) by {
        assert forall|r: Row| c.to_set().contains(r) <==> chosen(m, t, f, g).contains(r) by {
            assert(c.contains(r) <==> is_row(m, t, r) && wanted(t, f, r, g));
        }
    }
    assert forall|r: Row|
        #![trigger chosen(m, t, f, g).contains(r)]
        chosen(m, t, f, g).contains(r) <==> exists|i: int| 0 <= i < h.len() && (#[trigger] h[i]).1
            == r by {
        if chosen(m, t, f, g).contains(r) {
            assert(c.contains(r));
            let i = choose|i: int| 0 <= i < c.len() && c[i] == r;
            assert(h[i].1 == r);
        }
        if exists|i: int| 0 <= i < h.len() && (#[trigger] h[i]).1 == r {
            let i = choose|i: int| 0 <= i < h.len() && (#[trigger] h[i]).1 == r;
            assert(c[i] == r);
            assert(c.contains(r));
        }
    }
}

/// After a `del` the table holds the rows the filter was not true of, and
/// the answer says how many it was true of. The catalog stays.
pub proof fn law_del_removes_what_the_filter_selects(
    st: State,
    name: Seq<char>,
    f: Option<Term>,
    t: Tab,
    g: Math,
)
    requires
        table_in(st.schema, name) == Ok::<Tab, Fail>(t),
        own_ids(t),
        in_shape(st.data, t),
        del_done(st, name, f, g) is Ok,
        clean(st.data, t, planned(t, f)->Ok_0.path),
    ensures
        ({
            let (b, n) = del_done(st, name, f, g)->Ok_0;
            &&& b.schema == st.schema
            &&& forall|r: Row| #[trigger]
                is_row(b.data, t, r) <==> is_row(st.data, t, r) && !wanted(t, f, r, g)
            &&& chosen(st.data, t, f, g).finite()
            &&& n == chosen(st.data, t, f, g).len()
        }),
{
    let (b, n) = del_done(st, name, f, g)->Ok_0;
    let h = selected(st, name, f, g)->Ok_0.1;
    law_filter_selects_every_row(st, name, f, t, g);
    lemma_rows_cut_keeps(st.data, t, h);
    lemma_chosen(st.data, t, f, h, g);
    assert forall|r: Row| #[trigger] is_row(b.data, t, r) <==> is_row(st.data, t, r) && !wanted(
        t,
        f,
        r,
        g,
    ) by {
        assert(is_row(b.data, t, r) == (is_row(st.data, t, r) && forall|i: int|
            0 <= i < h.len() ==> (#[trigger] h[i]).1 != r));
        assert(chosen(st.data, t, f, g).contains(r) <==> exists|i: int|
            0 <= i < h.len() && (#[trigger] h[i]).1 == r);
    }
}

// ---------------------------------------------------------------------
// set
// ---------------------------------------------------------------------

/// Whether an assignment is the last of the first `n` to its column.
pub open spec fn last_to(t: Tab, assigns: Seq<Assign>, n: int, i: int, p: int) -> bool {
    &&& 0 <= i < n
    &&& spot(t.columns, assigns[i].column@) == Some(p)
    &&& forall|j: int| i < j < n ==> spot(t.columns, (#[trigger] assigns[j]).column@) != Some(p)
}

proof fn lemma_assigned_values(t: Tab, old_row: Row, assigns: Seq<Assign>, n: int, g: Math)
    requires
        0 <= n <= assigns.len(),
        old_row.len() == t.columns.len(),
        forall|i: int| 0 <= i < assigns.len() ==> assign_ok(t, #[trigger] assigns[i]),
        assigned(t, old_row, assigns, n, g) is Ok,
    ensures
        assigned(t, old_row, assigns, n, g)->Ok_0.len() == t.columns.len(),
        forall|i: int, p: int| #[trigger]
            last_to(t, assigns, n, i, p) ==> (worth(assigns[i].expr@, row_names(t, old_row), g)
                matches Ok(v) && fitted(v, t.columns[p].ty, t.columns[p].nullable) == Ok::<
                Val,
                Fail,
            >(assigned(t, old_row, assigns, n, g)->Ok_0[p])),
        forall|p: int|
            0 <= p < t.columns.len() && (forall|i: int|
                0 <= i < n ==> spot(t.columns, (#[trigger] assigns[i]).column@) != Some(p))
                ==> #[trigger] assigned(t, old_row, assigns, n, g)->Ok_0[p] == old_row[p],
    decreases n,
{
    if n > 0 {
        lemma_assigned_values(t, old_row, assigns, n - 1, g);
        let q = spot(t.columns, assigns[n - 1].column@)->0;
        assert(assign_ok(t, assigns[n - 1]));
        lemma_spot(t.columns, assigns[n - 1].column@);
        let a = assigned(t, old_row, assigns, n - 1, g)->Ok_0;
        let b = assigned(t, old_row, assigns, n, g)->Ok_0;
        assert forall|i: int, p: int| #[trigger] last_to(t, assigns, n, i, p) implies (worth(
            assigns[i].expr@,
            row_names(t, old_row),
            g,
        ) matches Ok(v) && fitted(v, t.columns[p].ty, t.columns[p].nullable) == Ok::<Val, Fail>(
            b[p],
        )) by {
            lemma_spot(t.columns, assigns[i].column@);
            if i < n - 1 {
                assert(p != q);
                assert(last_to(t, assigns, n - 1, i, p));
            }
        }
        assert forall|p: int|
            0 <= p < t.columns.len() && (forall|i: int|
                0 <= i < n ==> spot(t.columns, (#[trigger] assigns[i]).column@) != Some(p)) implies #[trigger] b[p]
            == old_row[p] by {
            assert(p != q);
            assert(a[p] == old_row[p]);
        }
    }
}

/// A changed row has, in each column assigned to, the value of the last
/// assignment to it as the column takes it, worked out from the row as it
/// was; every other column stays.
pub proof fn law_assignments_see_the_old_row(
    t: Tab,
    old_row: Row,
    assigns: Seq<Assign>,
    new_row: Row,
    g: Math,
)
    requires
        old_row.len() == t.columns.len(),
        forall|i: int| 0 <= i < assigns.len() ==> assign_ok(t, #[trigger] assigns[i]),
        assigned(t, old_row, assigns, assigns.len() as int, g) == Ok::<Row, Fail>(new_row),
    ensures
        new_row.len() == t.columns.len(),
        forall|i: int, p: int| #[trigger]
            last_to(t, assigns, assigns.len() as int, i, p) ==> {
                &&& t.columns[p].name == assigns[i].column@
                &&& worth(assigns[i].expr@, row_names(t, old_row), g) matches Ok(v) && fitted(
                    v,
                    t.columns[p].ty,
                    t.columns[p].nullable,
                ) == Ok::<Val, Fail>(new_row[p])
            },
        forall|p: int|
            0 <= p < t.columns.len() && (forall|i: int|
                0 <= i < assigns.len() ==> (#[trigger] assigns[i]).column@ != t.columns[p].name)
                ==> #[trigger] new_row[p] == old_row[p],
{
    let n = assigns.len() as int;
    lemma_assigned_values(t, old_row, assigns, n, g);
    assert forall|i: int, p: int| #[trigger] last_to(t, assigns, n, i, p) implies t.columns[p].name
        == assigns[i].column@ by {
        lemma_spot(t.columns, assigns[i].column@);
    }
    assert forall|p: int|
        0 <= p < t.columns.len() && (forall|i: int|
            0 <= i < assigns.len() ==> (#[trigger] assigns[i]).column@ != t.columns[p].name) implies #[trigger] new_row[p]
        == old_row[p] by {
        assert forall|i: int| 0 <= i < n implies spot(t.columns, (#[trigger] assigns[i]).column@)
            != Some(p) by {
            lemma_spot(t.columns, assigns[i].column@);
        }
        assert(assigned(t, old_row, assigns, n, g)->Ok_0[p] == old_row[p]);
    }
}

/// Whether a row is what a change makes of one of the first hits.
spec fn remade(t: Tab, h: Seq<Hit>, assigns: Seq<Assign>, r: Row, g: Math) -> bool {
    exists|i: int|
        0 <= i < h.len() && assigned(t, (#[trigger] h[i]).1, assigns, assigns.len() as int, g)
            == Ok::<Row, Fail>(r)
}

spec fn among(h: Seq<Hit>, r: Row) -> bool {
    exists|i: int| 0 <= i < h.len() && (#[trigger] h[i]).1 == r
}

proof fn lemma_rows_set(
    m: Bytes,
    t: Tab,
    h: Seq<Hit>,
    assigns: Seq<Assign>,
    lim: int,
    g: Math,
)
    requires
        own_ids(t),
        kept(m, t),
        real_hits(m, t, h),
        forall|i: int| 0 <= i < assigns.len() ==> assign_ok(t, #[trigger] assigns[i]),
        rows_set(m, t, h, assigns, lim, g) is Ok,
    ensures
        forall|i: int|
            0 <= i < h.len() ==> assigned(
                t,
                (#[trigger] h[i]).1,
                assigns,
                assigns.len() as int,
                g,
            ) is Ok,
        forall|r: Row| #[trigger]
            is_row(rows_set(m, t, h, assigns, lim, g)->Ok_0, t, r) <==> (is_row(m, t, r) && !among(
                h,
                r,
            )) || remade(t, h, assigns, r, g),
    decreases h.len(),
{
    let n = assigns.len() as int;
    if h.len() > 0 {
        let less = h.drop_last();
        let hit = h.last();
        let last = h.len() - 1;
        assert(h[last] == hit);
        assert(real_hits(m, t, less)) by {
            assert forall|i: int| 0 <= i < less.len() implies is_row(m, t, (#[trigger] less[i]).1)
                && less[i].0 == row_at(t.id, pk_of(t.columns, less[i].1)) by {
                assert(less[i] == h[i]);
            }
            assert forall|i: int, j: int| 0 <= i < j < less.len() implies (#[trigger] less[i]).0
                != (#[trigger] less[j]).0 by {
                assert(less[i] == h[i] && less[j] == h[j]);
            }
        }
        lemma_rows_set(m, t, less, assigns, lim, g);
        lemma_rows_set_keeps(m, t, less, assigns, lim, g);
        let a = rows_set(m, t, less, assigns, lim, g)->Ok_0;
        let b = row_set(a, t, hit, assigns, lim, g)->Ok_0;
        assert(is_row(a, t, hit.1)) by {
            assert forall|i: int| 0 <= i < less.len() implies (#[trigger] less[i]).0 != row_at(
                t.id,
                pk_of(t.columns, hit.1),
            ) by {
                assert(less[i] == h[i]);
                assert(h[i].0 != h[last].0);
            }
            assert(is_row(m, t, hit.1));
        }
        lemma_row_set(a, t, hit, assigns, lim, g);
        let new_row = assigned(t, hit.1, assigns, n, g)->Ok_0;
        let c = row_cut(a, t, hit);
        lemma_row_cut(a, t, hit);
        assert(!c.contains_key(hit.0));
        assert forall|i: int| 0 <= i < h.len() implies assigned(
            t,
            (#[trigger] h[i]).1,
            assigns,
            n,
            g,
        ) is Ok by {
            if i < last {
                assert(less[i] == h[i]);
            }
        }
        assert forall|r: Row| #[trigger] is_row(b, t, r) <==> (is_row(m, t, r) && !among(h, r))
            || remade(t, h, assigns, r, g) by {
            lemma_rows_after_take(a, c, t, hit.1, r);
            lemma_rows_after_add(c, b, t, new_row, r);
            assert(is_row(a, t, r) <==> (is_row(m, t, r) && !among(less, r)) || remade(
                t,
                less,
                assigns,
                r,
                g,
            ));
            assert(is_row(b, t, r) == ((is_row(a, t, r) && r != hit.1) || r == new_row));
            lemma_grown(t, h, assigns, r, g);
            if remade(t, less, assigns, r, g) && r == hit.1 {
                let i = choose|i: int|
                    0 <= i < less.len() && assigned(t, (#[trigger] less[i]).1, assigns, n, g)
                        == Ok::<Row, Fail>(r);
                assert(less[i] == h[i]);
                assert(is_row(m, t, h[i].1));
                crate::consistency::lemma_assigned(t, h[i].1, assigns, n, g);
                crate::consistency::lemma_same_pk(t, h[i].1, r);
                assert(h[i].0 != h[last].0);
            }
        }
    } else {
        assert forall|r: Row| #[trigger] is_row(m, t, r) <==> (is_row(m, t, r) && !among(h, r))
            || remade(t, h, assigns, r, g) by {}
    }
}

proof fn lemma_grown(t: Tab, h: Seq<Hit>, assigns: Seq<Assign>, r: Row, g: Math)
    requires
        h.len() > 0,
    ensures
        among(h, r) <==> among(h.drop_last(), r) || h.last().1 == r,
        remade(t, h, assigns, r, g) <==> remade(t, h.drop_last(), assigns, r, g) || assigned(
            t,
            h.last().1,
            assigns,
            assigns.len() as int,
            g,
        ) == Ok::<Row, Fail>(r),
{
    let n = assigns.len() as int;
    let less = h.drop_last();
    let last = h.len() - 1;
    assert(h[last] == h.last());
    if among(h, r) {
        let i = choose|i: int| 0 <= i < h.len() && (#[trigger] h[i]).1 == r;
        if i < last {
            assert(less[i].1 == r);
        }
    }
    if among(less, r) {
        let i = choose|i: int| 0 <= i < less.len() && (#[trigger] less[i]).1 == r;
        assert(h[i].1 == r);
    }
    if remade(t, h, assigns, r, g) {
        let i = choose|i: int|
            0 <= i < h.len() && assigned(t, (#[trigger] h[i]).1, assigns, n, g) == Ok::<Row, Fail>(r);
        if i < last {
            assert(assigned(t, less[i].1, assigns, n, g) == Ok::<Row, Fail>(r));
        }
    }
    if remade(t, less, assigns, r, g) {
        let i = choose|i: int|
            0 <= i < less.len() && assigned(t, (#[trigger] less[i]).1, assigns, n, g) == Ok::<
                Row,
                Fail,
            >(r);
        assert(assigned(t, h[i].1, assigns, n, g) == Ok::<Row, Fail>(r));
    }
}

/// After a `set` the table holds the rows the filter was not true of, and
/// for each row it was true of what the assignments make of it. The answer
/// says how many it was true of. The catalog stays.
pub proof fn law_set_changes_what_the_filter_selects(
    st: State,
    name: Seq<char>,
    f: Option<Term>,
    assigns: Seq<Assign>,
    t: Tab,
    lim: int,
    g: Math,
)
    requires
        table_in(st.schema, name) == Ok::<Tab, Fail>(t),
        own_ids(t),
        in_shape(st.data, t),
        set_done(st, name, f, assigns, lim, g) is Ok,
        clean(st.data, t, planned(t, f)->Ok_0.path),
    ensures
        ({
            let (b, n) = set_done(st, name, f, assigns, lim, g)->Ok_0;
            &&& b.schema == st.schema
            &&& forall|r: Row| #[trigger]
                is_row(b.data, t, r) <==> (is_row(st.data, t, r) && !wanted(t, f, r, g)) || exists|
                    old_row: Row,
                | #[trigger]
                    is_row(st.data, t, old_row) && wanted(t, f, old_row, g) && assigned(
                        t,
                        old_row,
                        assigns,
                        assigns.len() as int,
                        g,
                    ) == Ok::<Row, Fail>(r)
            &&& chosen(st.data, t, f, g).finite()
            &&& n == chosen(st.data, t, f, g).len()
        }),
{
    let (b, n) = set_done(st, name, f, assigns, lim, g)->Ok_0;
    let h = selected(st, name, f, g)->Ok_0.1;
    law_filter_selects_every_row(st, name, f, t, g);
    lemma_chosen(st.data, t, f, h, g);
    lemma_rows_set(st.data, t, h, assigns, lim, g);
    let k = assigns.len() as int;
    assert forall|r: Row| #[trigger] is_row(b.data, t, r) <==> (is_row(st.data, t, r) && !wanted(
        t,
        f,
        r,
        g,
    )) || exists|old_row: Row| #[trigger]
        is_row(st.data, t, old_row) && wanted(t, f, old_row, g) && assigned(
            t,
            old_row,
            assigns,
            k,
            g,
        ) == Ok::<Row, Fail>(r) by {
        assert(is_row(b.data, t, r) <==> (is_row(st.data, t, r) && !among(h, r)) || remade(
            t,
            h,
            assigns,
            r,
            g,
        ));
        assert(chosen(st.data, t, f, g).contains(r) <==> among(h, r));
        if remade(t, h, assigns, r, g) {
            let i = choose|i: int|
                0 <= i < h.len() && assigned(t, (#[trigger] h[i]).1, assigns, k, g) == Ok::<
                    Row,
                    Fail,
                >(r);
            assert(chosen(st.data, t, f, g).contains(h[i].1));
            assert(is_row(st.data, t, h[i].1));
        }
        if exists|old_row: Row| #[trigger]
            is_row(st.data, t, old_row) && wanted(t, f, old_row, g) && assigned(
                t,
                old_row,
                assigns,
                k,
                g,
            ) == Ok::<Row, Fail>(r) {
            let old_row = choose|old_row: Row| #[trigger]
                is_row(st.data, t, old_row) && wanted(t, f, old_row, g) && assigned(
                    t,
                    old_row,
                    assigns,
                    k,
                    g,
                ) == Ok::<Row, Fail>(r);
            assert(chosen(st.data, t, f, g).contains(old_row));
            let i = choose|i: int| 0 <= i < h.len() && (#[trigger] h[i]).1 == old_row;
            assert(assigned(t, h[i].1, assigns, k, g) == Ok::<Row, Fail>(r));
        }
    }
}

/// A change of a key column, of a column the table does not have, or to a
/// value of such a column is refused.
pub proof fn law_set_leaves_keys_alone(
    st: State,
    name: Seq<char>,
    f: Option<Term>,
    assigns: Seq<Assign>,
    t: Tab,
    i: int,
    lim: int,
    g: Math,
)
    requires
        table_in(st.schema, name) == Ok::<Tab, Fail>(t),
        0 <= i < assigns.len(),
        !known(t, assigns[i].expr@) || forall|p: int|
            0 <= p < t.columns.len() && (#[trigger] t.columns[p]).name == assigns[i].column@
                ==> t.columns[p].key,
    ensures
        set_done(st, name, f, assigns, lim, g) == Err::<(State, nat), Fail>(Fail::Plan),
{
    lemma_spot(t.columns, assigns[i].column@);
    assert(!assign_ok(t, assigns[i]));
}

} // verus!
