//! How plans are laid out: what works on rows stands over what gives them,
//! and what gives them stands two spaces further in.

use vstd::prelude::*;

use crate::ast::{ColumnRef, Direction, Get, Statement};
use crate::catalog::Tab;
use crate::exec_error::Fail;
use crate::joining::{bound_to, loaded, strategy};
use crate::plan::{sorted_shown, trimmed_shown, way_shown, Way};
use crate::pretty::name_shown;
use crate::statement::{explained, join_tree_shown, joins_shown};
use crate::store::Bytes;
use crate::strings::decimal;
use crate::value_ops::Shown;

verus! {

/// Lines with something in front of each.
pub open spec fn moved_in(pad: Seq<char>, lines: Seq<Seq<char>>) -> Seq<Seq<char>> {
    Seq::new(lines.len(), |i: int| pad + lines[i])
}

proof fn lemma_way(t: Tab, w: Way, f: Shown, a: Seq<char>, b: Seq<char>)
    ensures
        way_shown(t, w, f, a + b) == moved_in(a, way_shown(t, w, f, b)),
{
    let x = way_shown(t, w, f, a + b);
    let y = moved_in(a, way_shown(t, w, f, b));
    assert(x.len() == y.len());
    assert forall|i: int| 0 <= i < x.len() implies x[i] == y[i] by {
        assert(x[i] =~= y[i]);
    }
    assert(x =~= y);
}

proof fn lemma_joins(ts: Seq<Tab>, get: Get, n: int, f: Shown, a: Seq<char>, b: Seq<char>)
    ensures
        joins_shown(ts, get, n, f, a + b) == moved_in(a, joins_shown(ts, get, n, f, b)),
    decreases n,
{
    let x = joins_shown(ts, get, n, f, a + b);
    let y = moved_in(a, joins_shown(ts, get, n, f, b));
    if n > 0 {
        lemma_joins(ts, get, n - 1, f, a, b + "  "@);
        assert(a + b + "  "@ =~= a + (b + "  "@));
    }
    assert(x.len() == y.len());
    assert forall|i: int| 0 <= i < x.len() implies x[i] == y[i] by {
        assert(x[i] =~= y[i]);
    }
    assert(x =~= y);
}

proof fn lemma_join_tree(ts: Seq<Tab>, get: Get, f: Shown, a: Seq<char>, b: Seq<char>)
    ensures
        join_tree_shown(ts, get, f, a + b) == moved_in(a, join_tree_shown(ts, get, f, b)),
{
    let n = get.joins@.len() as int;
    let x = join_tree_shown(ts, get, f, a + b);
    let y = moved_in(a, join_tree_shown(ts, get, f, b));
    lemma_joins(ts, get, n, f, a, b);
    lemma_joins(ts, get, n, f, a, b + "  "@);
    assert(a + b + "  "@ =~= a + (b + "  "@));
    assert(x.len() == y.len());
    assert forall|i: int| 0 <= i < x.len() implies x[i] == y[i] by {
        assert(x[i] =~= y[i]);
    }
    assert(x =~= y);
}

proof fn lemma_same_joins(ts: Seq<Tab>, x: Get, y: Get, n: int, f: Shown, pad: Seq<char>)
    requires
        x.joins == y.joins,
    ensures
        joins_shown(ts, x, n, f, pad) == joins_shown(ts, y, n, f, pad),
    decreases n,
{
    if n > 0 {
        lemma_same_joins(ts, x, y, n - 1, f, pad + "  "@);
        assert(strategy(ts, x, n - 1) == strategy(ts, y, n - 1));
    }
}

proof fn lemma_same_tree(ts: Seq<Tab>, x: Get, y: Get, f: Shown, pad: Seq<char>)
    requires
        x.joins == y.joins,
        x.filter == y.filter,
    ensures
        join_tree_shown(ts, x, f, pad) == join_tree_shown(ts, y, f, pad),
{
    let n = x.joins@.len() as int;
    lemma_same_joins(ts, x, y, n, f, pad);
    lemma_same_joins(ts, x, y, n, f, pad + "  "@);
}

proof fn lemma_same_loaded(schema: Bytes, a: Get, b: Get, n: int)
    requires
        a.table == b.table,
        a.joins == b.joins,
    ensures
        loaded(schema, a, n) == loaded(schema, b, n),
    decreases n,
{
    if n > 0 {
        lemma_same_loaded(schema, a, b, n - 1);
    }
}

/// Whether what is shown under some space is what is shown under none, moved
/// in.
spec fn shifts(under: spec_fn(Seq<char>) -> Seq<Seq<char>>) -> bool {
    forall|a: Seq<char>, b: Seq<char>| #[trigger] under(a + b) == moved_in(a, under(b))
}

proof fn lemma_sorted(
    order: Option<(crate::ast::Name, Direction)>,
    a: Seq<char>,
    under: spec_fn(Seq<char>) -> Seq<Seq<char>>,
)
    requires
        shifts(under),
    ensures
        sorted_shown(order, a, under) == moved_in(a, sorted_shown(order, Seq::empty(), under)),
{
    let e = Seq::<char>::empty();
    let x = sorted_shown(order, a, under);
    let y = moved_in(a, sorted_shown(order, e, under));
    assert(a + e =~= a);
    assert(under(a + e) == moved_in(a, under(e)));
    assert(e + "  "@ =~= "  "@);
    assert(under(a + "  "@) == moved_in(a, under("  "@)));
    assert(x.len() == y.len());
    assert forall|i: int| 0 <= i < x.len() implies x[i] == y[i] by {
        assert(x[i] =~= y[i]);
    }
    assert(x =~= y);
}

proof fn lemma_spaces()
    ensures
        "  "@ == seq![' ', ' '],
        "Limit "@ == seq!['L', 'i', 'm', 'i', 't', ' '],
        "Sort "@ == seq!['S', 'o', 'r', 't', ' '],
        " asc"@ == seq![' ', 'a', 's', 'c'],
        " desc"@ == seq![' ', 'd', 'e', 's', 'c'],
{
    reveal_strlit("  ");
    reveal_strlit("Limit ");
    reveal_strlit("Sort ");
    reveal_strlit(" asc");
    reveal_strlit(" desc");
    assert("  "@ =~= seq![' ', ' ']);
    assert("Limit "@ =~= seq!['L', 'i', 'm', 'i', 't', ' ']);
    assert("Sort "@ =~= seq!['S', 'o', 'r', 't', ' ']);
    assert(" asc"@ =~= seq![' ', 'a', 's', 'c']);
    assert(" desc"@ =~= seq![' ', 'd', 'e', 's', 'c']);
}

/// What is shown of the rows a read works on, before they are sorted and
/// cut.
spec fn shown_under(schema: Bytes, get: Get, f: Shown, pad: Seq<char>) -> Seq<Seq<char>> {
    if get.joins@.len() > 0 {
        join_tree_shown(bound_to(schema, get)->Ok_0, get, f, pad)
    } else {
        let (t, w) = crate::statement::table_plan(
            schema,
            get.table@,
            crate::ast::opt_term(get.filter),
        )->Ok_0;
        way_shown(t, w, f, pad)
    }
}

proof fn lemma_explained(schema: Bytes, get: Get, f: Shown)
    requires
        explained(schema, Statement::Get(get), f) is Ok,
    ensures
        explained(schema, Statement::Get(get), f)->Ok_0 == trimmed_shown(
            crate::plan::opt_order(get.order),
            get.limit,
            Seq::empty(),
            |p: Seq<char>| shown_under(schema, get, f, p),
        ),
        shifts(|p: Seq<char>| shown_under(schema, get, f, p)),
{
    let mine = |p: Seq<char>| shown_under(schema, get, f, p);
    if get.joins@.len() > 0 {
        let ts = bound_to(schema, get)->Ok_0;
        let theirs = |p: Seq<char>| join_tree_shown(ts, get, f, p);
        assert(mine =~= theirs);
        assert forall|a: Seq<char>, b: Seq<char>| #[trigger] mine(a + b) == moved_in(a, mine(b)) by {
            lemma_join_tree(ts, get, f, a, b);
        }
    } else {
        let (t, w) = crate::statement::table_plan(
            schema,
            get.table@,
            crate::ast::opt_term(get.filter),
        )->Ok_0;
        let theirs = |p: Seq<char>| way_shown(t, w, f, p);
        assert(mine =~= theirs);
        assert forall|a: Seq<char>, b: Seq<char>| #[trigger] mine(a + b) == moved_in(a, mine(b)) by {
            lemma_way(t, w, f, a, b);
        }
    }
}

/// A limited read is shown as the limit over the same read without it, two
/// spaces further in.
pub proof fn law_limits_are_shown_on_top(schema: Bytes, get: Get, n: u64, f: Shown)
    requires
        get.limit is None,
        explained(schema, Statement::Get(get), f) is Ok,
    ensures
        explained(schema, Statement::Get(Get { limit: Some(n), ..get }), f) == Ok::<
            Seq<Seq<char>>,
            Fail,
        >(
            seq![seq!['L', 'i', 'm', 'i', 't', ' '] + decimal(n as nat)] + moved_in(
                seq![' ', ' '],
                explained(schema, Statement::Get(get), f)->Ok_0,
            ),
        ),
{
    let b = Get { limit: Some(n), ..get };
    lemma_spaces();
    lemma_same_loaded(schema, get, b, get.joins@.len() as int);
    assert(explained(schema, Statement::Get(b), f) is Ok);
    lemma_explained(schema, get, f);
    lemma_explained(schema, b, f);
    let x = |p: Seq<char>| shown_under(schema, get, f, p);
    let y = |p: Seq<char>| shown_under(schema, b, f, p);
    assert forall|p: Seq<char>| #[trigger] x(p) == y(p) by {
        if get.joins@.len() > 0 {
            lemma_same_tree(bound_to(schema, get)->Ok_0, get, b, f, p);
        }
    }
    assert(x =~= y);
    let order = crate::plan::opt_order(get.order);
    lemma_sorted(order, "  "@, x);
    let e = Seq::<char>::empty();
    assert(e + "  "@ =~= "  "@);
    assert(e + ("Limit "@ + decimal(n as nat)) =~= "Limit "@ + decimal(n as nat));
}

/// A sorted read is shown as the sort, with its column and its direction,
/// over the same read without it, two spaces further in.
pub proof fn law_sorts_are_shown_on_top(
    schema: Bytes,
    get: Get,
    c: ColumnRef,
    dir: Direction,
    f: Shown,
)
    requires
        get.limit is None,
        get.order is None,
        explained(schema, Statement::Get(get), f) is Ok,
        explained(schema, Statement::Get(Get { order: Some((c, dir)), ..get }), f) is Ok,
    ensures
        explained(schema, Statement::Get(Get { order: Some((c, dir)), ..get }), f)->Ok_0 == seq![
            seq!['S', 'o', 'r', 't', ' '] + name_shown(c@) + (if dir is Asc {
                seq![' ', 'a', 's', 'c']
            } else {
                seq![' ', 'd', 'e', 's', 'c']
            }),
        ] + moved_in(seq![' ', ' '], explained(schema, Statement::Get(get), f)->Ok_0),
{
    let b = Get { order: Some((c, dir)), ..get };
    lemma_spaces();
    lemma_same_loaded(schema, get, b, get.joins@.len() as int);
    lemma_explained(schema, get, f);
    lemma_explained(schema, b, f);
    let x = |p: Seq<char>| shown_under(schema, get, f, p);
    let y = |p: Seq<char>| shown_under(schema, b, f, p);
    assert forall|p: Seq<char>| #[trigger] x(p) == y(p) by {
        if get.joins@.len() > 0 {
            lemma_same_tree(bound_to(schema, get)->Ok_0, get, b, f, p);
        }
    }
    assert(x =~= y);
    let e = Seq::<char>::empty();
    assert(e + "  "@ =~= "  "@);
    assert("  "@ + e =~= "  "@);
    assert(x("  "@ + e) == moved_in("  "@, x(e)));
    let line = "Sort "@ + name_shown(c@) + (if dir is Asc {
        " asc"@
    } else {
        " desc"@
    });
    assert(e + line =~= line);
}

} // verus!
