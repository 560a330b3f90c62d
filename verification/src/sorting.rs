//! Sorting rows by one column, stable.

use vstd::prelude::*;

use crate::ast::{Direction, TypeName};
use crate::encoding::{vals, Val, Value};
use crate::order::Order;
use crate::plan::typed;
use crate::value_ops::{sort_order, sort_values};

verus! {

/// A row of values.
pub type Row = Seq<Val>;

/// What some rows say.
pub open spec fn rows_of(v: Seq<Vec<Value>>) -> Seq<Row> {
    Seq::new(v.len(), |i: int| vals(v[i]@))
}

/// Whether row `a` has to stand before row `b`.
pub open spec fn before(a: Row, b: Row, pos: int, dir: Direction) -> bool {
    if dir is Asc {
        sort_order(a[pos], b[pos]) is Less
    } else {
        sort_order(a[pos], b[pos]) is Greater
    }
}

/// Two sorted lists as one. The right one goes first only where it has to.
pub open spec fn merged(a: Seq<Row>, b: Seq<Row>, pos: int, dir: Direction) -> Seq<Row>
    decreases a.len() + b.len(),
{
    if a.len() == 0 {
        b
    } else if b.len() == 0 {
        a
    } else if before(b[0], a[0], pos, dir) {
        seq![b[0]] + merged(a, b.skip(1), pos, dir)
    } else {
        seq![a[0]] + merged(a.skip(1), b, pos, dir)
    }
}

/// The rows in order, ties as they were.
pub open spec fn arranged(rows: Seq<Row>, pos: int, dir: Direction) -> Seq<Row>
    decreases rows.len(),
{
    if rows.len() <= 1 {
        rows
    } else {
        let half = rows.len() as int / 2;
        merged(
            arranged(rows.take(half), pos, dir),
            arranged(rows.skip(half), pos, dir),
            pos,
            dir,
        )
    }
}

/// The rows at some places.
pub open spec fn picked(rows: Seq<Row>, at: Seq<usize>) -> Seq<Row> {
    Seq::new(at.len(), |i: int| rows[at[i] as int])
}

pub open spec fn all_within(at: Seq<usize>, n: int) -> bool {
    forall|i: int| 0 <= i < at.len() ==> (#[trigger] at[i]) < n
}

fn comes_first(a: &Vec<Value>, b: &Vec<Value>, pos: usize, dir: Direction) -> (r: bool)
    requires
        pos < a@.len(),
        pos < b@.len(),
    ensures
        r == before(vals(a@), vals(b@), pos as int, dir),
{
    let o: Order = sort_values(&a[pos], &b[pos]);
    match (dir, o) {
        (Direction::Asc, Order::Less) => true,
        (Direction::Desc, Order::Greater) => true,
        _ => false,
    }
}

fn merge(rows: &Vec<Vec<Value>>, a: &Vec<usize>, b: &Vec<usize>, pos: usize, dir: Direction) -> (r:
    Vec<usize>)
    requires
        all_within(a@, rows@.len() as int),
        all_within(b@, rows@.len() as int),
        forall|i: int| 0 <= i < rows@.len() ==> (#[trigger] rows@[i])@.len() > pos,
    ensures
        all_within(r@, rows@.len() as int),
        picked(rows_of(rows@), r@) == merged(
            picked(rows_of(rows@), a@),
            picked(rows_of(rows@), b@),
            pos as int,
            dir,
        ),
{
    let mut out: Vec<usize> = Vec::new();
    let mut i: usize = 0;
    let mut j: usize = 0;
    let ghost all = rows_of(rows@);
    let ghost xs = picked(all, a@);
    let ghost ys = picked(all, b@);
    let ghost want = merged(xs, ys, pos as int, dir);
    proof {
        assert(xs.skip(0) =~= xs);
        assert(ys.skip(0) =~= ys);
        assert(picked(all, out@) + want =~= want);
    }
    while i < a.len() || j < b.len()
        invariant
            i <= a@.len(),
            j <= b@.len(),
            all == rows_of(rows@),
            xs == picked(all, a@),
            ys == picked(all, b@),
            all_within(a@, rows@.len() as int),
            all_within(b@, rows@.len() as int),
            all_within(out@, rows@.len() as int),
            forall|i: int| 0 <= i < rows@.len() ==> (#[trigger] rows@[i])@.len() > pos,
            picked(all, out@) + merged(xs.skip(i as int), ys.skip(j as int), pos as int, dir)
                == want,
        decreases a@.len() - i + b@.len() - j,
    {
        let ghost had = out@;
        let ghost p = xs.skip(i as int);
        let ghost q = ys.skip(j as int);
        let left: bool = if i >= a.len() {
            false
        } else if j >= b.len() {
            true
        } else {
            proof {
                assert(rows@[a@[i as int] as int]@.len() > pos);
                assert(rows@[b@[j as int] as int]@.len() > pos);
            }
            !comes_first(&rows[b[j]], &rows[a[i]], pos, dir)
        };
        if left {
            out.push(a[i]);
            i = i + 1;
            proof {
                assert(p[0] == all[a@[i - 1] as int]);
                assert(p.skip(1) =~= xs.skip(i as int));
                assert(picked(all, out@) =~= picked(all, had).push(p[0]));
                if q.len() == 0 {
                    assert(seq![p[0]] + p.skip(1) =~= p);
                    assert(merged(p.skip(1), q, pos as int, dir) =~= p.skip(1));
                }
                assert(merged(p, q, pos as int, dir) =~= seq![p[0]] + merged(
                    p.skip(1),
                    q,
                    pos as int,
                    dir,
                ));
                assert(picked(all, out@) + merged(p.skip(1), q, pos as int, dir) =~= picked(
                    all,
                    had,
                ) + merged(p, q, pos as int, dir));
            }
        } else {
            out.push(b[j]);
            j = j + 1;
            proof {
                assert(q[0] == all[b@[j - 1] as int]);
                assert(q.skip(1) =~= ys.skip(j as int));
                assert(picked(all, out@) =~= picked(all, had).push(q[0]));
                if p.len() == 0 {
                    assert(seq![q[0]] + q.skip(1) =~= q);
                    assert(merged(p, q.skip(1), pos as int, dir) =~= q.skip(1));
                }
                assert(merged(p, q, pos as int, dir) =~= seq![q[0]] + merged(
                    p,
                    q.skip(1),
                    pos as int,
                    dir,
                ));
                assert(picked(all, out@) + merged(p, q.skip(1), pos as int, dir) =~= picked(
                    all,
                    had,
                ) + merged(p, q, pos as int, dir));
            }
        }
    }
    proof {
        assert(picked(all, out@) + merged(
            xs.skip(i as int),
            ys.skip(j as int),
            pos as int,
            dir,
        ) =~= picked(all, out@));
    }
    out
}

fn arrange(rows: &Vec<Vec<Value>>, from: usize, to: usize, pos: usize, dir: Direction) -> (r: Vec<
    usize,
>)
    requires
        from <= to <= rows@.len(),
        forall|i: int| 0 <= i < rows@.len() ==> (#[trigger] rows@[i])@.len() > pos,
    ensures
        all_within(r@, rows@.len() as int),
        picked(rows_of(rows@), r@) == arranged(
            rows_of(rows@).subrange(from as int, to as int),
            pos as int,
            dir,
        ),
    decreases to - from,
{
    let ghost all = rows_of(rows@);
    let ghost part = all.subrange(from as int, to as int);
    if to - from <= 1 {
        let mut out: Vec<usize> = Vec::new();
        if to - from == 1 {
            out.push(from);
        }
        proof {
            assert(picked(all, out@) =~= part);
        }
        out
    } else {
        let mid: usize = from + (to - from) / 2;
        proof {
            let half = part.len() as int / 2;
            assert(part.take(half) =~= all.subrange(from as int, mid as int));
            assert(part.skip(half) =~= all.subrange(mid as int, to as int));
        }
        let a = arrange(rows, from, mid, pos, dir);
        let b = arrange(rows, mid, to, pos, dir);
        merge(rows, &a, &b, pos, dir)
    }
}

/// Sort rows by one column. Ties stay as they were.
pub fn sort_rows(rows: Vec<Vec<Value>>, pos: usize, dir: Direction) -> (r: Vec<Vec<Value>>)
    requires
        forall|i: int| 0 <= i < rows@.len() ==> (#[trigger] rows@[i])@.len() > pos,
    ensures
        rows_of(r@) == arranged(rows_of(rows@), pos as int, dir),
{
    let len: usize = rows.len();
    let order = arrange(&rows, 0, len, pos, dir);
    let ghost all = rows_of(rows@);
    proof {
        assert(all.subrange(0, len as int) =~= all);
    }
    let n: usize = order.len();
    let mut out: Vec<Vec<Value>> = Vec::new();
    for i in 0..n
        invariant
            n == order@.len(),
            all == rows_of(rows@),
            all_within(order@, rows@.len() as int),
            rows_of(out@) == picked(all, order@.take(i as int)),
    {
        let ghost had = out@;
        out.push(crate::rows::copy_values(rows[order[i]].as_slice()));
        proof {
            assert(rows_of(out@) =~= rows_of(had).push(all[order@[i as int] as int]));
            assert(picked(all, order@.take(i as int + 1)) =~= picked(
                all,
                order@.take(i as int),
            ).push(all[order@[i as int] as int]));
        }
    }
    proof {
        assert(order@.take(n as int) =~= order@);
    }
    out
}

// ---------------------------------------------------------------------
// what sorting does
// ---------------------------------------------------------------------

/// A list in which no row has to stand before an earlier one.
pub open spec fn in_order(rows: Seq<Row>, pos: int, dir: Direction) -> bool {
    forall|i: int, j: int|
        0 <= i < j < rows.len() ==> !before(#[trigger] rows[j], #[trigger] rows[i], pos, dir)
}

/// A way of ordering that is consistent on some rows: what does not have to
/// come first, step by step, does not have to come first at all.
pub open spec fn consistent(rows: Seq<Row>, pos: int, dir: Direction) -> bool {
    forall|a: Row, b: Row, c: Row|
        rows.contains(a) && rows.contains(b) && rows.contains(c) && !#[trigger] before(
            b,
            a,
            pos,
            dir,
        ) && !#[trigger] before(c, b, pos, dir) ==> !before(c, a, pos, dir)
}

proof fn lemma_merged_holds(a: Seq<Row>, b: Seq<Row>, pos: int, dir: Direction)
    ensures
        merged(a, b, pos, dir).to_multiset() == a.to_multiset().add(b.to_multiset()),
        merged(a, b, pos, dir).len() == a.len() + b.len(),
    decreases a.len() + b.len(),
{
    broadcast use vstd::seq_lib::group_to_multiset_ensures;
    if a.len() == 0 {
        assert(a.to_multiset() =~= vstd::multiset::Multiset::empty());
        assert(a.to_multiset().add(b.to_multiset()) =~= b.to_multiset());
    } else if b.len() == 0 {
        assert(b.to_multiset() =~= vstd::multiset::Multiset::empty());
        assert(a.to_multiset().add(b.to_multiset()) =~= a.to_multiset());
    } else if before(b[0], a[0], pos, dir) {
        lemma_merged_holds(a, b.skip(1), pos, dir);
        let m = merged(a, b.skip(1), pos, dir);
        vstd::seq_lib::lemma_multiset_commutative(seq![b[0]], m);
        vstd::seq_lib::lemma_multiset_commutative(seq![b[0]], b.skip(1));
        assert(seq![b[0]] + b.skip(1) =~= b);
        assert(merged(a, b, pos, dir).to_multiset() =~= a.to_multiset().add(b.to_multiset()));
    } else {
        lemma_merged_holds(a.skip(1), b, pos, dir);
        let m = merged(a.skip(1), b, pos, dir);
        vstd::seq_lib::lemma_multiset_commutative(seq![a[0]], m);
        vstd::seq_lib::lemma_multiset_commutative(seq![a[0]], a.skip(1));
        assert(seq![a[0]] + a.skip(1) =~= a);
        assert(merged(a, b, pos, dir).to_multiset() =~= a.to_multiset().add(b.to_multiset()));
    }
}

/// Sorting gives back the rows it was given, each as often.
pub proof fn law_sorting_keeps_every_row(rows: Seq<Row>, pos: int, dir: Direction)
    ensures
        arranged(rows, pos, dir).to_multiset() == rows.to_multiset(),
        arranged(rows, pos, dir).len() == rows.len(),
    decreases rows.len(),
{
    if rows.len() > 1 {
        let half = rows.len() as int / 2;
        law_sorting_keeps_every_row(rows.take(half), pos, dir);
        law_sorting_keeps_every_row(rows.skip(half), pos, dir);
        lemma_merged_holds(
            arranged(rows.take(half), pos, dir),
            arranged(rows.skip(half), pos, dir),
            pos,
            dir,
        );
        vstd::seq_lib::lemma_multiset_commutative(rows.take(half), rows.skip(half));
        assert(rows.take(half) + rows.skip(half) =~= rows);
    }
}

proof fn lemma_merged_members(a: Seq<Row>, b: Seq<Row>, pos: int, dir: Direction, x: Row)
    ensures
        merged(a, b, pos, dir).contains(x) <==> a.contains(x) || b.contains(x),
{
    broadcast use vstd::seq_lib::group_to_multiset_ensures;
    lemma_merged_holds(a, b, pos, dir);
    assert(merged(a, b, pos, dir).contains(x) <==> merged(a, b, pos, dir).to_multiset().contains(x));
    assert(a.contains(x) <==> a.to_multiset().contains(x));
    assert(b.contains(x) <==> b.to_multiset().contains(x));
}

proof fn lemma_merged_order(all: Seq<Row>, a: Seq<Row>, b: Seq<Row>, pos: int, dir: Direction)
    requires
        consistent(all, pos, dir),
        forall|x: Row| #[trigger] a.contains(x) ==> all.contains(x),
        forall|x: Row| #[trigger] b.contains(x) ==> all.contains(x),
        in_order(a, pos, dir),
        in_order(b, pos, dir),
    ensures
        in_order(merged(a, b, pos, dir), pos, dir),
    decreases a.len() + b.len(),
{
    if a.len() > 0 && b.len() > 0 {
        let first = if before(b[0], a[0], pos, dir) {
            b[0]
        } else {
            a[0]
        };
        let (p, q) = if before(b[0], a[0], pos, dir) {
            (a, b.skip(1))
        } else {
            (a.skip(1), b)
        };
        let m = merged(p, q, pos, dir);
        assert(a.contains(a[0]) && b.contains(b[0]));
        assert forall|x: Row| #[trigger] p.contains(x) implies all.contains(x) && !before(
            x,
            first,
            pos,
            dir,
        ) by {
            let i = choose|i: int| 0 <= i < p.len() && p[i] == x;
            lemma_in_order_head(all, a, b, pos, dir, x);
            if before(b[0], a[0], pos, dir) {
                assert(a[i] == x);
            } else {
                assert(a[i + 1] == x);
            }
            assert(a.contains(x));
        }
        assert forall|x: Row| #[trigger] q.contains(x) implies all.contains(x) && !before(
            x,
            first,
            pos,
            dir,
        ) by {
            let i = choose|i: int| 0 <= i < q.len() && q[i] == x;
            lemma_in_order_head(all, a, b, pos, dir, x);
            if before(b[0], a[0], pos, dir) {
                assert(b[i + 1] == x);
            } else {
                assert(b[i] == x);
            }
            assert(b.contains(x));
        }
        assert forall|i: int, j: int| 0 <= i < j < p.len() implies !before(
            #[trigger] p[j],
            #[trigger] p[i],
            pos,
            dir,
        ) by {
            if !before(b[0], a[0], pos, dir) {
                assert(p[i] == a[i + 1] && p[j] == a[j + 1]);
            }
        }
        assert forall|i: int, j: int| 0 <= i < j < q.len() implies !before(
            #[trigger] q[j],
            #[trigger] q[i],
            pos,
            dir,
        ) by {
            if before(b[0], a[0], pos, dir) {
                assert(q[i] == b[i + 1] && q[j] == b[j + 1]);
            }
        }
        lemma_merged_order(all, p, q, pos, dir);
        let whole = merged(a, b, pos, dir);
        assert(whole =~= seq![first] + m);
        assert forall|i: int, j: int| 0 <= i < j < whole.len() implies !before(
            #[trigger] whole[j],
            #[trigger] whole[i],
            pos,
            dir,
        ) by {
            assert(whole[j] == m[j - 1]);
            if i == 0 {
                assert(m.contains(m[j - 1]));
                lemma_merged_members(p, q, pos, dir, m[j - 1]);
            } else {
                assert(whole[i] == m[i - 1]);
            }
        }
    }
}

/// Nothing in two sorted lists has to come before the head that goes first.
proof fn lemma_in_order_head(
    all: Seq<Row>,
    a: Seq<Row>,
    b: Seq<Row>,
    pos: int,
    dir: Direction,
    x: Row,
)
    requires
        consistent(all, pos, dir),
        forall|x: Row| #[trigger] a.contains(x) ==> all.contains(x),
        forall|x: Row| #[trigger] b.contains(x) ==> all.contains(x),
        in_order(a, pos, dir),
        in_order(b, pos, dir),
        a.len() > 0,
        b.len() > 0,
    ensures
        ({
            let first = if before(b[0], a[0], pos, dir) {
                b[0]
            } else {
                a[0]
            };
            a.contains(x) || b.contains(x) ==> !before(x, first, pos, dir)
        }),
{
    assert(a.contains(a[0]) && b.contains(b[0]));
    lemma_before_flips(a[0], b[0], pos, dir);
    lemma_before_flips(a[0], a[0], pos, dir);
    lemma_before_flips(b[0], b[0], pos, dir);
    if a.contains(x) {
        let i = choose|i: int| 0 <= i < a.len() && a[i] == x;
        if i > 0 {
            assert(!before(a[i], a[0], pos, dir));
        }
        assert(!before(x, a[0], pos, dir));
        if before(b[0], a[0], pos, dir) {
            assert(!before(a[0], b[0], pos, dir));
            assert(all.contains(x) && all.contains(a[0]) && all.contains(b[0]));
        }
    }
    if b.contains(x) {
        let i = choose|i: int| 0 <= i < b.len() && b[i] == x;
        if i > 0 {
            assert(!before(b[i], b[0], pos, dir));
        }
        assert(!before(x, b[0], pos, dir));
        if !before(b[0], a[0], pos, dir) {
            assert(all.contains(x) && all.contains(a[0]) && all.contains(b[0]));
        }
    }
}

/// Two rows never have to stand before each other.
proof fn lemma_before_flips(a: Row, b: Row, pos: int, dir: Direction)
    ensures
        before(a, b, pos, dir) ==> !before(b, a, pos, dir),
{
    crate::order::lemma_lex_facts();
}

/// Where the values of the column order consistently, the sorted rows are in
/// order.
pub proof fn law_sorting_sorts(rows: Seq<Row>, pos: int, dir: Direction)
    requires
        consistent(rows, pos, dir),
    ensures
        in_order(arranged(rows, pos, dir), pos, dir),
{
    lemma_arranged_order(rows, rows, pos, dir);
}

proof fn lemma_arranged_order(all: Seq<Row>, rows: Seq<Row>, pos: int, dir: Direction)
    requires
        consistent(all, pos, dir),
        forall|x: Row| #[trigger] rows.contains(x) ==> all.contains(x),
    ensures
        in_order(arranged(rows, pos, dir), pos, dir),
    decreases rows.len(),
{
    if rows.len() > 1 {
        let half = rows.len() as int / 2;
        let p = rows.take(half);
        let q = rows.skip(half);
        assert forall|x: Row| #[trigger] p.contains(x) implies all.contains(x) by {
            let i = choose|i: int| 0 <= i < p.len() && p[i] == x;
            assert(rows[i] == x);
            assert(rows.contains(x));
        }
        assert forall|x: Row| #[trigger] q.contains(x) implies all.contains(x) by {
            let i = choose|i: int| 0 <= i < q.len() && q[i] == x;
            assert(rows[i + half] == x);
            assert(rows.contains(x));
        }
        lemma_arranged_order(all, p, pos, dir);
        lemma_arranged_order(all, q, pos, dir);
        let a = arranged(p, pos, dir);
        let b = arranged(q, pos, dir);
        assert forall|x: Row| #[trigger] a.contains(x) implies all.contains(x) by {
            lemma_arranged_members(p, pos, dir, x);
        }
        assert forall|x: Row| #[trigger] b.contains(x) implies all.contains(x) by {
            lemma_arranged_members(q, pos, dir, x);
        }
        lemma_merged_order(all, a, b, pos, dir);
    }
}

pub proof fn lemma_arranged_members(rows: Seq<Row>, pos: int, dir: Direction, x: Row)
    ensures
        arranged(rows, pos, dir).contains(x) <==> rows.contains(x),
{
    broadcast use vstd::seq_lib::group_to_multiset_ensures;
    law_sorting_keeps_every_row(rows, pos, dir);
    assert(arranged(rows, pos, dir).contains(x) <==> arranged(
        rows,
        pos,
        dir,
    ).to_multiset().contains(x));
    assert(rows.contains(x) <==> rows.to_multiset().contains(x));
}

/// The values of one column type order consistently.
pub proof fn law_one_type_orders_consistently(
    rows: Seq<Row>,
    pos: int,
    dir: Direction,
    ty: TypeName,
)
    requires
        forall|r: Row| #[trigger] rows.contains(r) ==> typed(r[pos], ty),
    ensures
        consistent(rows, pos, dir),
{
    crate::order::lemma_lex_facts();
}

/// The rows that tie with `x`.
pub open spec fn ties(rows: Seq<Row>, x: Row, pos: int, dir: Direction) -> Seq<Row>
    decreases rows.len(),
{
    if rows.len() == 0 {
        Seq::empty()
    } else if !before(rows[0], x, pos, dir) && !before(x, rows[0], pos, dir) {
        seq![rows[0]] + ties(rows.skip(1), x, pos, dir)
    } else {
        ties(rows.skip(1), x, pos, dir)
    }
}

proof fn lemma_ties_concat(a: Seq<Row>, b: Seq<Row>, x: Row, pos: int, dir: Direction)
    ensures
        ties(a + b, x, pos, dir) == ties(a, x, pos, dir) + ties(b, x, pos, dir),
    decreases a.len(),
{
    if a.len() == 0 {
        assert(a + b =~= b);
        assert(ties(a, x, pos, dir) + ties(b, x, pos, dir) =~= ties(b, x, pos, dir));
    } else {
        lemma_ties_concat(a.skip(1), b, x, pos, dir);
        assert((a + b).skip(1) =~= a.skip(1) + b);
        assert(ties(a + b, x, pos, dir) =~= ties(a, x, pos, dir) + ties(b, x, pos, dir));
    }
}

proof fn lemma_no_ties(a: Seq<Row>, x: Row, pos: int, dir: Direction)
    requires
        forall|y: Row| #[trigger]
            a.contains(y) ==> before(y, x, pos, dir) || before(x, y, pos, dir),
    ensures
        ties(a, x, pos, dir).len() == 0,
    decreases a.len(),
{
    if a.len() > 0 {
        assert(a.contains(a[0]));
        assert forall|y: Row| #[trigger] a.skip(1).contains(y) implies before(y, x, pos, dir)
            || before(x, y, pos, dir) by {
            let i = choose|i: int| 0 <= i < a.skip(1).len() && a.skip(1)[i] == y;
            assert(a[i + 1] == y);
            assert(a.contains(y));
        }
        lemma_no_ties(a.skip(1), x, pos, dir);
    }
}

proof fn lemma_merged_ties(
    all: Seq<Row>,
    a: Seq<Row>,
    b: Seq<Row>,
    x: Row,
    pos: int,
    dir: Direction,
)
    requires
        consistent(all, pos, dir),
        all.contains(x),
        forall|x: Row| #[trigger] a.contains(x) ==> all.contains(x),
        forall|x: Row| #[trigger] b.contains(x) ==> all.contains(x),
        in_order(a, pos, dir),
        in_order(b, pos, dir),
    ensures
        ties(merged(a, b, pos, dir), x, pos, dir) == ties(a, x, pos, dir) + ties(b, x, pos, dir),
    decreases a.len() + b.len(),
{
    if a.len() == 0 {
        assert(ties(a, x, pos, dir) + ties(b, x, pos, dir) =~= ties(b, x, pos, dir));
    } else if b.len() == 0 {
        assert(ties(a, x, pos, dir) + ties(b, x, pos, dir) =~= ties(a, x, pos, dir));
    } else if before(b[0], a[0], pos, dir) {
        let q = b.skip(1);
        assert forall|y: Row| #[trigger] q.contains(y) implies all.contains(y) by {
            let i = choose|i: int| 0 <= i < q.len() && q[i] == y;
            assert(b[i + 1] == y);
            assert(b.contains(y));
        }
        assert forall|i: int, j: int| 0 <= i < j < q.len() implies !before(
            #[trigger] q[j],
            #[trigger] q[i],
            pos,
            dir,
        ) by {
            assert(q[i] == b[i + 1] && q[j] == b[j + 1]);
        }
        lemma_merged_ties(all, a, q, x, pos, dir);
        let m = merged(a, q, pos, dir);
        lemma_ties_concat(seq![b[0]], m, x, pos, dir);
        lemma_ties_concat(seq![b[0]], q, x, pos, dir);
        assert(seq![b[0]] + q =~= b);
        assert(a.contains(a[0]) && b.contains(b[0]));
        let one = ties(seq![b[0]], x, pos, dir);
        if !before(b[0], x, pos, dir) && !before(x, b[0], pos, dir) {
            assert forall|y: Row| #[trigger] a.contains(y) implies before(y, x, pos, dir)
                || before(x, y, pos, dir) by {
                let i = choose|i: int| 0 <= i < a.len() && a[i] == y;
                lemma_before_flips(a[0], a[0], pos, dir);
                if i > 0 {
                    assert(!before(a[i], a[0], pos, dir));
                }
                assert(!before(y, a[0], pos, dir));
                if !before(y, x, pos, dir) && !before(x, y, pos, dir) {
                    assert(!before(b[0], y, pos, dir));
                    assert(!before(b[0], a[0], pos, dir));
                }
            }
            lemma_no_ties(a, x, pos, dir);
            assert(ties(a, x, pos, dir) =~= Seq::empty());
            assert(one + ties(m, x, pos, dir) =~= ties(a, x, pos, dir) + ties(b, x, pos, dir));
        } else {
            lemma_one_tie(b[0], x, pos, dir);
            assert(one + ties(m, x, pos, dir) =~= ties(m, x, pos, dir));
            assert(one + ties(q, x, pos, dir) =~= ties(q, x, pos, dir));
        }
    } else {
        let p = a.skip(1);
        assert forall|y: Row| #[trigger] p.contains(y) implies all.contains(y) by {
            let i = choose|i: int| 0 <= i < p.len() && p[i] == y;
            assert(a[i + 1] == y);
            assert(a.contains(y));
        }
        assert forall|i: int, j: int| 0 <= i < j < p.len() implies !before(
            #[trigger] p[j],
            #[trigger] p[i],
            pos,
            dir,
        ) by {
            assert(p[i] == a[i + 1] && p[j] == a[j + 1]);
        }
        lemma_merged_ties(all, p, b, x, pos, dir);
        let m = merged(p, b, pos, dir);
        lemma_ties_concat(seq![a[0]], m, x, pos, dir);
        lemma_ties_concat(seq![a[0]], p, x, pos, dir);
        assert(seq![a[0]] + p =~= a);
        let one = ties(seq![a[0]], x, pos, dir);
        assert(one + (ties(p, x, pos, dir) + ties(b, x, pos, dir)) =~= (one + ties(
            p,
            x,
            pos,
            dir,
        )) + ties(b, x, pos, dir));
    }
}

proof fn lemma_one_tie(a: Row, x: Row, pos: int, dir: Direction)
    requires
        before(a, x, pos, dir) || before(x, a, pos, dir),
    ensures
        ties(seq![a], x, pos, dir) == Seq::<Row>::empty(),
{
    assert(seq![a].skip(1) =~= Seq::empty());
    assert(ties(Seq::empty(), x, pos, dir) =~= Seq::<Row>::empty());
}

/// Where the values of the column order consistently, rows that tie stay in
/// the order they came in.
pub proof fn law_sorting_keeps_ties(rows: Seq<Row>, x: Row, pos: int, dir: Direction)
    requires
        consistent(rows, pos, dir),
        rows.contains(x),
    ensures
        ties(arranged(rows, pos, dir), x, pos, dir) == ties(rows, x, pos, dir),
{
    lemma_arranged_ties(rows, rows, x, pos, dir);
}

proof fn lemma_arranged_ties(all: Seq<Row>, rows: Seq<Row>, x: Row, pos: int, dir: Direction)
    requires
        consistent(all, pos, dir),
        all.contains(x),
        forall|x: Row| #[trigger] rows.contains(x) ==> all.contains(x),
    ensures
        ties(arranged(rows, pos, dir), x, pos, dir) == ties(rows, x, pos, dir),
    decreases rows.len(),
{
    if rows.len() > 1 {
        let half = rows.len() as int / 2;
        let p = rows.take(half);
        let q = rows.skip(half);
        assert forall|x: Row| #[trigger] p.contains(x) implies all.contains(x) by {
            let i = choose|i: int| 0 <= i < p.len() && p[i] == x;
            assert(rows[i] == x);
            assert(rows.contains(x));
        }
        assert forall|x: Row| #[trigger] q.contains(x) implies all.contains(x) by {
            let i = choose|i: int| 0 <= i < q.len() && q[i] == x;
            assert(rows[i + half] == x);
            assert(rows.contains(x));
        }
        lemma_arranged_order(all, p, pos, dir);
        lemma_arranged_order(all, q, pos, dir);
        lemma_arranged_ties(all, p, x, pos, dir);
        lemma_arranged_ties(all, q, x, pos, dir);
        let a = arranged(p, pos, dir);
        let b = arranged(q, pos, dir);
        assert forall|x: Row| #[trigger] a.contains(x) implies all.contains(x) by {
            lemma_arranged_members(p, pos, dir, x);
        }
        assert forall|x: Row| #[trigger] b.contains(x) implies all.contains(x) by {
            lemma_arranged_members(q, pos, dir, x);
        }
        lemma_merged_ties(all, a, b, x, pos, dir);
        lemma_ties_concat(p, q, x, pos, dir);
        assert(p + q =~= rows);
    }
}

} // verus!
