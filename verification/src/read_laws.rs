//! What a read gives back, told by the rows that are stored and by what
//! other reads give.

use vstd::prelude::*;

use crate::ast::{opt_term, ColumnRef, Direction, Get, Name, Term, TypeName};
use crate::catalog::{key_spots, Tab};
use crate::encoding::Val;
use crate::exec_error::Fail;
use crate::expr_laws::of_type;
use crate::join::joint_names;
use crate::joining::{bound_to, got, loaded, sifted_joint, walked};
use crate::plan::{planned, Path, Way};
use crate::query::{across, bare, fetched, names, reached, served, sifted, single, Hit};
use crate::rows::{known, row_names};
use crate::sort_laws::{climbs, law_sorted_columns_climb};
use crate::sorting::{arranged, Row};
use crate::source::table_in;
use crate::store::Bytes;
use crate::value_ops::{holds_in, Math};

verus! {

// ---------------------------------------------------------------------
// filters
// ---------------------------------------------------------------------

/// Whether a condition is true of a joined row.
pub open spec fn true_of(ts: Seq<Tab>, e: Term, g: Math) -> spec_fn(Row) -> bool {
    |x: Row| holds_in(e, joint_names(ts, ts.len() as int, x), g) == Ok::<bool, Fail>(true)
}

/// Filtering joined rows keeps, in order, those the condition is true of and
/// no others. It fails where the condition fails of some row, and only
/// there.
pub proof fn law_join_filter_keeps_what_holds(ts: Seq<Tab>, rows: Seq<Row>, e: Term, g: Math)
    ensures
        sifted_joint(ts, rows, e, g) matches Ok(kept_rows) ==> {
            &&& forall|i: int|
                0 <= i < kept_rows.len() ==> holds_in(
                    e,
                    joint_names(ts, ts.len() as int, #[trigger] kept_rows[i]),
                    g,
                ) == Ok::<bool, Fail>(true)
            &&& kept_rows == rows.filter(true_of(ts, e, g))
            &&& kept_rows.to_multiset() == rows.to_multiset().filter(true_of(ts, e, g))
        },
        sifted_joint(ts, rows, e, g) is Ok <==> forall|i: int|
            0 <= i < rows.len() ==> holds_in(
                e,
                joint_names(ts, ts.len() as int, #[trigger] rows[i]),
                g,
            ) is Ok,
        sifted_joint(ts, rows, e, g) matches Err(x) ==> exists|i: int|
            0 <= i < rows.len() && holds_in(
                e,
                joint_names(ts, ts.len() as int, #[trigger] rows[i]),
                g,
            ) == Err::<bool, Fail>(x),
    decreases rows.len(),
{
    reveal(Seq::filter);
    broadcast use vstd::seq_lib::group_to_multiset_ensures;

    let p = true_of(ts, e, g);
    if rows.len() > 0 {
        let less = rows.drop_last();
        law_join_filter_keeps_what_holds(ts, less, e, g);
        assert(forall|i: int| 0 <= i < less.len() ==> less[i] == rows[i]);
        assert(rows[rows.len() - 1] == rows.last());
        assert(less.push(rows.last()) =~= rows);
        match sifted_joint(ts, less, e, g) {
            Err(x) => {
                let i = choose|i: int|
                    0 <= i < less.len() && holds_in(
                        e,
                        joint_names(ts, ts.len() as int, #[trigger] less[i]),
                        g,
                    ) == Err::<bool, Fail>(x);
                assert(rows[i] == less[i]);
            },
            Ok(before) => {
                let r = sifted_joint(ts, rows, e, g);
                if r is Ok {
                    let out = r->Ok_0;
                    assert(out == rows.filter(p));
                    assert(rows.to_multiset() =~= less.to_multiset().insert(rows.last()));
                    assert(out.to_multiset() =~= rows.to_multiset().filter(p));
                    assert(forall|i: int| 0 <= i < before.len() ==> out[i] == before[i]);
                }
            },
        }
    } else {
        assert(rows =~= Seq::empty());
        assert(rows.filter(p) =~= Seq::empty());
        assert(Seq::<Row>::empty().to_multiset() =~= rows.to_multiset().filter(p));
    }
}

/// Whether a condition is true of a row of one table.
pub open spec fn true_of_hit(t: Tab, e: Term, g: Math) -> spec_fn(Hit) -> bool {
    |x: Hit| holds_in(e, row_names(t, x.1), g) == Ok::<bool, Fail>(true)
}

/// Filtering the rows of one table keeps, in order, those the condition is
/// true of and no others.
pub proof fn law_filter_keeps_what_holds(t: Tab, h: Seq<Hit>, e: Term, g: Math)
    ensures
        sifted(t, h, e, g) matches Ok(kept_rows) ==> {
            &&& forall|i: int|
                0 <= i < kept_rows.len() ==> holds_in(e, row_names(t, (#[trigger] kept_rows[i]).1), g)
                    == Ok::<bool, Fail>(true)
            &&& kept_rows == h.filter(true_of_hit(t, e, g))
        },
        sifted(t, h, e, g) is Ok <==> forall|i: int|
            0 <= i < h.len() ==> holds_in(e, row_names(t, (#[trigger] h[i]).1), g) is Ok,
        sifted(t, h, e, g) matches Err(x) ==> exists|i: int|
            0 <= i < h.len() && holds_in(e, row_names(t, (#[trigger] h[i]).1), g) == Err::<
                bool,
                Fail,
            >(x),
    decreases h.len(),
{
    reveal(Seq::filter);
    let p = true_of_hit(t, e, g);
    if h.len() > 0 {
        let less = h.drop_last();
        law_filter_keeps_what_holds(t, less, e, g);
        assert(forall|i: int| 0 <= i < less.len() ==> less[i] == h[i]);
        assert(h[h.len() - 1] == h.last());
        match sifted(t, less, e, g) {
            Err(x) => {
                let i = choose|i: int|
                    0 <= i < less.len() && holds_in(e, row_names(t, (#[trigger] less[i]).1), g)
                        == Err::<bool, Fail>(x);
                assert(h[i] == less[i]);
            },
            Ok(before) => {
                let r = sifted(t, h, e, g);
                if r is Ok {
                    let out = r->Ok_0;
                    assert(out == h.filter(p));
                    assert(forall|i: int| 0 <= i < before.len() ==> out[i] == before[i]);
                }
            },
        }
    } else {
        assert(h =~= Seq::empty());
        assert(h.filter(p) =~= Seq::empty());
    }
}

// ---------------------------------------------------------------------
// order, limit and projection
// ---------------------------------------------------------------------

/// Where the rows of a read come from before they are ordered, cut and
/// projected, and where names point in them.
spec fn sourced(m: Bytes, schema: Bytes, get: Get, g: Math) -> core::result::Result<
    (Seq<Row>, spec_fn(Name) -> Option<int>),
    Fail,
> {
    if get.joins@.len() > 0 {
        match bound_to(schema, get) {
            Err(e) => Err(e),
            Ok(ts) => match walked(m, ts, get, get.joins@.len() as int, g) {
                Err(e) => Err(e),
                Ok(rows) => match get.filter {
                    None => Ok((rows, across(ts))),
                    Some(f) => match sifted_joint(ts, rows, f@, g) {
                        Err(e) => Err(e),
                        Ok(some) => Ok((some, across(ts))),
                    },
                },
            },
        }
    } else {
        match table_in(schema, get.table@) {
            Err(e) => Err(e),
            Ok(t) => if get.filter matches Some(f) && !known(t, f@) {
                Err(Fail::Plan)
            } else {
                match planned(t, opt_term(get.filter)) {
                    Err(e) => Err(e),
                    Ok(w) => match fetched(m, t, w, g) {
                        Err(e) => Err(e),
                        Ok(h) => Ok((bare(h), single(t))),
                    },
                }
            },
        }
    }
}

proof fn lemma_sourced(m: Bytes, schema: Bytes, get: Get, g: Math)
    ensures
        got(m, schema, get, g) == match sourced(m, schema, get, g) {
            Err(e) => Err(e),
            Ok((rows, at)) => served(rows, at, get),
        },
{
    reveal(got);
}

proof fn lemma_same_loaded(schema: Bytes, a: Get, b: Get, n: int)
    requires
        a.table == b.table,
        a.joins == b.joins,
    ensures
        loaded(schema, a, n) == loaded(schema, b, n),
    decreases n,
{
    if n > 0 {
        lemma_same_loaded(schema, a, b, n - 1);
    }
}

proof fn lemma_same_walked(m: Bytes, ts: Seq<Tab>, a: Get, b: Get, n: int, g: Math)
    requires
        a.joins == b.joins,
    ensures
        walked(m, ts, a, n, g) == walked(m, ts, b, n, g),
    decreases n,
{
    if n > 0 {
        lemma_same_walked(m, ts, a, b, n - 1, g);
    }
}

proof fn lemma_same_source(m: Bytes, schema: Bytes, a: Get, b: Get, g: Math)
    requires
        a.table == b.table,
        a.joins == b.joins,
        a.filter == b.filter,
    ensures
        sourced(m, schema, a, g) == sourced(m, schema, b, g),
{
    let n = a.joins@.len() as int;
    if n > 0 {
        lemma_same_loaded(schema, a, b, n);
        if bound_to(schema, a) is Ok {
            lemma_same_walked(m, bound_to(schema, a)->Ok_0, a, b, n, g);
        }
    }
}

/// A limit gives the first rows of what the same read gives without one, and
/// changes nothing else.
pub proof fn law_limit_takes_the_first(m: Bytes, schema: Bytes, get: Get, n: u64, g: Math)
    requires
        get.limit is None,
    ensures
        ({
            let all = got(m, schema, get, g);
            let some = got(m, schema, Get { limit: Some(n), ..get }, g);
            match (all, some) {
                (Ok(a), Ok(s)) => {
                    &&& s.len() <= n
                    &&& s.len() <= a.len()
                    &&& s.len() == n || s.len() == a.len()
                    &&& forall|i: int| 0 <= i < s.len() ==> #[trigger] s[i] == a[i]
                },
                (Err(x), Err(y)) => x == y,
                _ => false,
            }
        }),
{
    let b = Get { limit: Some(n), ..get };
    lemma_sourced(m, schema, get, g);
    lemma_sourced(m, schema, b, g);
    lemma_same_source(m, schema, get, b, g);
}

/// A projection gives, for every row of what the same read gives without
/// one, the values of the columns it names, in the order it names them.
pub proof fn law_projection_picks_columns(
    m: Bytes,
    schema: Bytes,
    get: Get,
    cs: Vec<ColumnRef>,
    g: Math,
)
    requires
        get.projection is None,
        got(m, schema, Get { projection: Some(cs), ..get }, g) is Ok,
    ensures
        got(m, schema, get, g) is Ok,
        ({
            let all = got(m, schema, get, g)->Ok_0;
            let some = got(m, schema, Get { projection: Some(cs), ..get }, g)->Ok_0;
            &&& some.len() == all.len()
            &&& forall|i: int| 0 <= i < some.len() ==> (#[trigger] some[i]).len() == cs@.len()
            &&& get.joins@.len() == 0 ==> forall|i: int, k: int|
                0 <= i < some.len() && 0 <= k < cs@.len() ==> row_names(
                    table_in(schema, get.table@)->Ok_0,
                    all[i],
                )(cs@[k]@) == Ok::<Val, Fail>(#[trigger] some[i][k])
            &&& get.joins@.len() > 0 ==> forall|i: int, k: int|
                0 <= i < some.len() && 0 <= k < cs@.len() ==> joint_names(
                    bound_to(schema, get)->Ok_0,
                    get.joins@.len() as int + 1,
                    all[i],
                )(cs@[k]@) == Ok::<Val, Fail>(#[trigger] some[i][k])
        }),
{
    let b = Get { projection: Some(cs), ..get };
    lemma_sourced(m, schema, get, g);
    lemma_sourced(m, schema, b, g);
    lemma_same_source(m, schema, get, b, g);
    let (rows, at) = sourced(m, schema, get, g)->Ok_0;
    let all = got(m, schema, get, g)->Ok_0;
    let some = got(m, schema, b, g)->Ok_0;
    assert forall|i: int, k: int| 0 <= i < some.len() && 0 <= k < cs@.len() implies at(cs@[k]@)
        is Some && #[trigger] some[i][k] == all[i][at(cs@[k]@)->0] by {
        assert(names(cs@)[k] == cs@[k]@);
    }
    if get.joins@.len() > 0 {
        crate::joining::lemma_loaded(schema, get, get.joins@.len() as int);
    }
}

/// An order changes only the order: the same rows come back.
pub proof fn law_order_keeps_the_rows(
    m: Bytes,
    schema: Bytes,
    get: Get,
    order: (ColumnRef, Direction),
    g: Math,
)
    requires
        get.order is None,
        get.limit is None,
        get.projection is None,
        got(m, schema, Get { order: Some(order), ..get }, g) is Ok,
    ensures
        got(m, schema, get, g) is Ok,
        got(m, schema, Get { order: Some(order), ..get }, g)->Ok_0.to_multiset() == got(
            m,
            schema,
            get,
            g,
        )->Ok_0.to_multiset(),
{
    let b = Get { order: Some(order), ..get };
    lemma_sourced(m, schema, get, g);
    lemma_sourced(m, schema, b, g);
    lemma_same_source(m, schema, get, b, g);
    let (rows, at) = sourced(m, schema, get, g)->Ok_0;
    crate::sorting::law_sorting_keeps_every_row(rows, at(order.0@)->0, order.1);
}

/// A read that shows the column it is ordered by shows it climbing, or
/// falling where the order is descending: null before everything, numbers by
/// size, texts by their bytes, false before true.
pub proof fn law_ordered_reads_climb(
    m: Bytes,
    schema: Bytes,
    get: Get,
    c: ColumnRef,
    dir: Direction,
    cs: Vec<ColumnRef>,
    ty: TypeName,
    g: Math,
    i: int,
    j: int,
)
    requires
        get.order == Some((c, dir)),
        get.projection == Some(cs),
        get.limit is None,
        cs@.len() == 1,
        cs@[0]@ == c@,
        got(m, schema, get, g) is Ok,
        forall|k: int|
            0 <= k < got(m, schema, get, g)->Ok_0.len() ==> of_type(
                (#[trigger] got(m, schema, get, g)->Ok_0[k])[0],
                ty,
            ) || got(m, schema, get, g)->Ok_0[k][0] is Null,
        0 <= i < j < got(m, schema, get, g)->Ok_0.len(),
    ensures
        ({
            let out = got(m, schema, get, g)->Ok_0;
            if dir is Asc {
                climbs(out[i][0], out[j][0])
            } else {
                climbs(out[j][0], out[i][0])
            }
        }),
{
    lemma_sourced(m, schema, get, g);
    let (rows, at) = sourced(m, schema, get, g)->Ok_0;
    let out = got(m, schema, get, g)->Ok_0;
    let pos = at(c@)->0;
    let sorted = arranged(rows, pos, dir);
    assert(names(cs@)[0] == c@);
    assert forall|k: int| 0 <= k < out.len() implies (#[trigger] out[k])[0] == sorted[k][pos] by {}
    crate::sorting::law_sorting_keeps_every_row(rows, pos, dir);
    assert forall|k: int| 0 <= k < rows.len() implies of_type((#[trigger] rows[k])[pos], ty)
        || rows[k][pos] is Null by {
        crate::sorting::lemma_arranged_members(rows, pos, dir, rows[k]);
        assert(rows.contains(rows[k]));
        let q = choose|q: int| 0 <= q < sorted.len() && sorted[q] == rows[k];
        assert(out[q][0] == sorted[q][pos]);
    }
    law_sorted_columns_climb(rows, pos, dir, ty);
    assert(out[i][0] == sorted[i][pos] && out[j][0] == sorted[j][pos]);
}

// ---------------------------------------------------------------------
// what is found
// ---------------------------------------------------------------------

proof fn lemma_sift_literal(ts: Seq<Tab>, rows: Seq<Row>, v: Val, g: Math)
    requires
        v is Bool || v is Null,
    ensures
        v == Val::Bool(true) ==> sifted_joint(ts, rows, Term::Literal(v), g) == Ok::<Seq<Row>, Fail>(
            rows,
        ),
        v != Val::Bool(true) ==> sifted_joint(ts, rows, Term::Literal(v), g) == Ok::<Seq<Row>, Fail>(
            Seq::empty(),
        ),
    decreases rows.len(),
{
    if rows.len() > 0 {
        lemma_sift_literal(ts, rows.drop_last(), v, g);
        crate::expr_laws::law_conditions_are_truth_values(
            v,
            arbitrary(),
            joint_names(ts, ts.len() as int, rows.last()),
            g,
        );
        assert(rows.drop_last().push(rows.last()) =~= rows);
    } else {
        assert(rows =~= Seq::empty());
    }
}

proof fn lemma_sift_literal_hits(t: Tab, h: Seq<Hit>, v: Val, g: Math)
    requires
        v is Bool || v is Null,
    ensures
        v == Val::Bool(true) ==> sifted(t, h, Term::Literal(v), g) == Ok::<Seq<Hit>, Fail>(h),
        v != Val::Bool(true) ==> sifted(t, h, Term::Literal(v), g) == Ok::<Seq<Hit>, Fail>(
            Seq::empty(),
        ),
    decreases h.len(),
{
    if h.len() > 0 {
        lemma_sift_literal_hits(t, h.drop_last(), v, g);
        crate::expr_laws::law_conditions_are_truth_values(
            v,
            arbitrary(),
            row_names(t, h.last().1),
            g,
        );
        assert(h.drop_last().push(h.last()) =~= h);
    } else {
        assert(h =~= Seq::empty());
    }
}

/// A literal pins no column.
proof fn lemma_literal_plan(t: Tab, v: Val)
    requires
        key_spots(t.columns).len() > 0,
    ensures
        planned(t, Some(Term::Literal(v))) == Ok::<Way, Fail>(
            Way { path: Path::SeqScan, residual: Some(Term::Literal(v)) },
        ),
{
    reveal_with_fuel(crate::plan::conj, 2);
    let parts = crate::plan::conj(Term::Literal(v));
    assert(parts =~= seq![Term::Literal(v)]);
    crate::plan::lemma_probed(t, parts);
    if crate::plan::key_pinned(t, parts) {
        crate::plan::lemma_pinned(t, parts, key_spots(t.columns)[0]);
    }
}

/// A filter that is always true gives what no filter gives. One that is
/// always false, or null, gives no row.
pub proof fn law_constant_filters(m: Bytes, schema: Bytes, get: Get, f: crate::ast::Expr, v: Val, g: Math)
    requires
        get.filter is None,
        f@ == Term::Literal(v),
        get.joins@.len() == 0 ==> (table_in(schema, get.table@) matches Ok(t) ==> key_spots(
            t.columns,
        ).len() > 0),
    ensures
        v == Val::Bool(true) ==> got(m, schema, Get { filter: Some(f), ..get }, g) == got(
            m,
            schema,
            get,
            g,
        ),
        v == Val::Bool(false) || v is Null ==> (got(m, schema, get, g) is Ok ==> got(
            m,
            schema,
            Get { filter: Some(f), ..get },
            g,
        ) == Ok::<Seq<Row>, Fail>(Seq::empty())),
{
    let b = Get { filter: Some(f), ..get };
    lemma_sourced(m, schema, get, g);
    lemma_sourced(m, schema, b, g);
    let n = get.joins@.len() as int;
    if v is Bool || v is Null {
        if n > 0 {
            lemma_same_loaded(schema, get, b, n);
            assert(bound_to(schema, get) == bound_to(schema, b));
            if bound_to(schema, get) is Ok {
                let ts = bound_to(schema, get)->Ok_0;
                lemma_same_walked(m, ts, get, b, n, g);
                if walked(m, ts, get, n, g) is Ok {
                    lemma_sift_literal(ts, walked(m, ts, get, n, g)->Ok_0, v, g);
                }
            }
        } else if table_in(schema, get.table@) is Ok {
            let t = table_in(schema, get.table@)->Ok_0;
            lemma_literal_plan(t, v);
            assert(opt_term(b.filter) == Some(Term::Literal(v)));
            assert(opt_term(get.filter) is None);
            if reached(m, t, Path::SeqScan) is Ok {
                lemma_sift_literal_hits(t, reached(m, t, Path::SeqScan)->Ok_0, v, g);
            }
        }
        if v != Val::Bool(true) && got(m, schema, get, g) is Ok {
            let at = sourced(m, schema, b, g)->Ok_0.1;
            assert(bare(Seq::<Hit>::empty()) =~= Seq::<Row>::empty());
            lemma_served_empty(at, b);
        }
    }
}

proof fn lemma_served_empty(at: spec_fn(Name) -> Option<int>, get: Get)
    ensures
        served(Seq::empty(), at, get) matches Ok(out) ==> out == Seq::<Row>::empty(),
{
    assert(arranged(Seq::<Row>::empty(), 0, Direction::Asc) == Seq::<Row>::empty());
    if served(Seq::empty(), at, get) is Ok {
        assert(served(Seq::empty(), at, get)->Ok_0 =~= Seq::<Row>::empty());
    }
}

/// A read of a table, or by a column, that is not there is refused, and so
/// is one that orders by or asks for such a column.
pub proof fn law_unknown_names_are_refused(m: Bytes, schema: Bytes, get: Get, g: Math)
    requires
        get.joins@.len() == 0,
    ensures
        !schema.contains_key(crate::catalog::table_at(get.table@)) ==> got(m, schema, get, g)
            == Err::<Seq<Row>, Fail>(Fail::Plan),
        table_in(schema, get.table@) matches Ok(t) ==> {
            &&& get.filter matches Some(f) ==> !known(t, f@) ==> got(m, schema, get, g) == Err::<
                Seq<Row>,
                Fail,
            >(Fail::Plan)
            &&& got(m, schema, get, g) is Ok ==> {
                &&& get.order matches Some((c, _)) ==> crate::rows::place(t, c@) is Some
                &&& get.projection matches Some(cs) ==> forall|k: int|
                    0 <= k < cs@.len() ==> crate::rows::place(t, (#[trigger] cs@[k])@) is Some
            }
        },
{
    lemma_sourced(m, schema, get, g);
    if got(m, schema, get, g) is Ok {
        let (rows, at) = sourced(m, schema, get, g)->Ok_0;
        if let Some(cs) = get.projection {
            assert forall|k: int| 0 <= k < cs@.len() implies at((#[trigger] cs@[k])@) is Some by {
                assert(names(cs@)[k] == cs@[k]@);
            }
        }
    }
}

} // verus!
